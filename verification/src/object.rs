use vstd::prelude::*;

use crate::atlas::Atlas;
use crate::chance::{gen_below, thread_rng};
use crate::myimage::MyImage;

verus! {

/// A sprite placed on the canvas: which sprite, its rotation in degrees, the
/// position of its corner, its scale and its colour. The scale is an `f32`
/// kept as its bit pattern (`f32::to_bits`); the library never reads it.
#[derive(Clone, Copy, Debug, PartialEq, Eq)]
pub struct Object {
    pub id: usize,
    pub rotation: usize,
    pub coors: (isize, isize),
    pub size_bits: u32,
    pub color: (u8, u8, u8),
}

/// `v` brought into `lo..=hi`.
pub open spec fn clamp(v: int, lo: int, hi: int) -> int {
    if v < lo {
        lo
    } else if v > hi {
        hi
    } else {
        v
    }
}

/// Absolute value.
pub open spec fn abs(v: int) -> int {
    if v < 0 {
        -v
    } else {
        v
    }
}

/// The rotation after turning by `turn` degrees, brought back into `0..360`.
pub open spec fn turned(rotation: int, turn: int) -> int {
    let r = rotation + turn;
    (if r < 0 {
        r + 360
    } else {
        r
    }) % 360
}

/// A random object can be drawn: the atlas lists at least one sprite id and
/// the canvas has at least one cell, with sides that fit an `isize`.
pub open spec fn can_draw(atlas: &Atlas, canvas: &MyImage) -> bool {
    &&& 0 < atlas.nb_sprites <= atlas.ids@.len()
    &&& 0 < canvas.width <= isize::MAX
    &&& 0 < canvas.height <= isize::MAX
}

impl Object {
    /// What a fresh random draw can give: a sprite of the atlas, a rotation
    /// below 360, a corner on the canvas, colour channels below 255 and the
    /// given scale.
    pub open spec fn is_fresh(self, atlas: &Atlas, width: int, height: int, size_bits: u32) -> bool {
        &&& exists|k: int| 0 <= k < atlas.nb_sprites && atlas.ids@[k] == self.id
        &&& self.rotation < 360
        &&& 0 <= self.coors.0 < width
        &&& 0 <= self.coors.1 < height
        &&& self.color.0 < 255 && self.color.1 < 255 && self.color.2 < 255
        &&& self.size_bits == size_bits
    }

    /// The object after a mutation with the given draws: the sprite replaced
    /// when `new_id` holds one, the rotation turned, the corner shifted and
    /// kept within `0..=width` and `0..=height`, the colour reset to black.
    pub open spec fn mutated(
        self,
        new_id: Option<usize>,
        turn: int,
        shift: (int, int),
        width: int,
        height: int,
    ) -> Object {
        Object {
            id: match new_id {
                Some(i) => i,
                None => self.id,
            },
            rotation: turned(self.rotation as int, turn) as usize,
            coors: (
                clamp(self.coors.0 + shift.0, 0, width) as isize,
                clamp(self.coors.1 + shift.1, 0, height) as isize,
            ),
            size_bits: self.size_bits,
            color: (0, 0, 0),
        }
    }

    /// `self` is what a mutation of `parent` can give (see `mutate`), with
    /// `size_bits` as its scale.
    pub open spec fn is_mutation_of(
        self,
        parent: Object,
        atlas: &Atlas,
        width: int,
        height: int,
        size_bits: u32,
    ) -> bool {
        exists|new_id: Option<usize>, turn: int, dx: int, dy: int|
            {
                &&& (new_id is None || exists|k: int|
                    0 <= k < atlas.nb_sprites && atlas.ids@[k] == new_id->0)
                &&& -10 <= turn < 10
                &&& -20 <= dx < 20
                &&& -20 <= dy < 20
                &&& self == (Object {
                    size_bits,
                    ..#[trigger] parent.mutated(new_id, turn, (dx, dy), width, height)
                })
            }
    }

    /// The object can be mutated on the canvas without overflow: its rotation
    /// and corner leave room for a turn and a shift, and the canvas sides fit an
    /// `isize`.
    pub open spec fn can_mutate(self, canvas: &MyImage) -> bool {
        &&& self.rotation + 10 <= isize::MAX
        &&& isize::MIN + 20 <= self.coors.0 <= isize::MAX - 20
        &&& isize::MIN + 20 <= self.coors.1 <= isize::MAX - 20
        &&& canvas.width <= isize::MAX
        &&& canvas.height <= isize::MAX
    }

    /// One random object: draws a sprite of the atlas, a rotation, a corner on
    /// the canvas and a colour; the scale is given.
    fn draw(
        rng: &mut rand::rngs::ThreadRng,
        atlas: &Atlas,
        canvas: &MyImage,
        size_bits: u32,
    ) -> (o: Object)
        requires
            can_draw(atlas, canvas),
        ensures
            o.is_fresh(atlas, canvas.width as int, canvas.height as int, size_bits),
    {
        let num = gen_below(rng, atlas.nb_sprites);
        let rotation = gen_below(rng, 360);
        let x = gen_below(rng, canvas.width);
        let y = gen_below(rng, canvas.height);
        let r = gen_below(rng, 255) as u8;
        let g = gen_below(rng, 255) as u8;
        let b = gen_below(rng, 255) as u8;
        Object::from_draws(atlas, num, rotation, x, y, (r, g, b), size_bits)
    }

    /// The object that the draws give: sprite `atlas.ids[num]`, the rotation,
    /// the corner `(x, y)`, the colour and the scale.
    pub fn from_draws(
        atlas: &Atlas,
        num: usize,
        rotation: usize,
        x: usize,
        y: usize,
        colour: (u8, u8, u8),
        size_bits: u32,
    ) -> (o: Object)
        requires
            num < atlas.nb_sprites <= atlas.ids@.len(),
            x <= isize::MAX,
            y <= isize::MAX,
        ensures
            o == (Object {
                id: atlas.ids@[num as int],
                rotation,
                coors: (x as isize, y as isize),
                size_bits,
                color: colour,
            }),
    {
        Object {
            id: atlas.ids[num],
            rotation,
            coors: (x as isize, y as isize),
            size_bits,
            color: colour,
        }
    }

    /// The sprite that a mutation switches to: `atlas.ids[k]` when the roll
    /// (drawn from `0..10`) is 0, none otherwise.
    pub fn new_sprite(atlas: &Atlas, roll: usize, k: usize) -> (id: Option<usize>)
        requires
            roll < 10,
            k < atlas.nb_sprites <= atlas.ids@.len(),
        ensures
            id == if roll == 0 {
                Some(atlas.ids@[k as int])
            } else {
                None
            },
    {
        if roll == 0 {
            Some(atlas.ids[k])
        } else {
            None
        }
    }

    /// `number` random objects, the `i`-th with scale `sizes[i]`.
    pub fn generate_randoms(number: usize, atlas: &Atlas, canvas: &MyImage, sizes: &Vec<u32>) -> (objects:
        Vec<Object>)
        requires
            number > 0 ==> can_draw(atlas, canvas),
            sizes@.len() == number,
        ensures
            objects@.len() == number,
            forall|i: int|
                0 <= i < number ==> (#[trigger] objects@[i]).is_fresh(
                    atlas,
                    canvas.width as int,
                    canvas.height as int,
                    sizes@[i],
                ),
    {
        let mut rng = thread_rng();
        let mut objects: Vec<Object> = Vec::new();
        let mut i: usize = 0;
        while i < number
            invariant
                number > 0 ==> can_draw(atlas, canvas),
                sizes@.len() == number,
                i <= number,
                objects@.len() == i,
                forall|j: int|
                    0 <= j < i ==> (#[trigger] objects@[j]).is_fresh(
                        atlas,
                        canvas.width as int,
                        canvas.height as int,
                        sizes@[j],
                    ),
            decreases number - i,
        {
            let o = Object::draw(&mut rng, atlas, canvas, sizes[i]);
            objects.push(o);
            i = i + 1;
        }
        objects
    }

    /// Redraws every object of `objects` in place, the `i`-th with scale `sizes[i]`.
    pub fn refill_randoms(
        objects: &mut Vec<Object>,
        atlas: &Atlas,
        canvas: &MyImage,
        sizes: &Vec<u32>,
    )
        requires
            old(objects)@.len() > 0 ==> can_draw(atlas, canvas),
            sizes@.len() == old(objects)@.len(),
        ensures
            final(objects)@.len() == old(objects)@.len(),
            forall|i: int|
                0 <= i < final(objects)@.len() ==> (#[trigger] final(objects)@[i]).is_fresh(
                    atlas,
                    canvas.width as int,
                    canvas.height as int,
                    sizes@[i],
                ),
    {
        let mut rng = thread_rng();
        let n = objects.len();
        let mut i: usize = 0;
        while i < n
            invariant
                n > 0 ==> can_draw(atlas, canvas),
                sizes@.len() == n,
                objects@.len() == n,
                i <= n,
                forall|j: int|
                    0 <= j < i ==> (#[trigger] objects@[j]).is_fresh(
                        atlas,
                        canvas.width as int,
                        canvas.height as int,
                        sizes@[j],
                    ),
            decreases n - i,
        {
            let o = Object::draw(&mut rng, atlas, canvas, sizes[i]);
            objects.set(i, o);
            i = i + 1;
        }
    }

    /// Applies one mutation with the given draws (see `mutated`): `turn` in
    /// `-10..10`, each shift in `-20..20`.
    pub fn apply_mutation(
        &mut self,
        new_id: Option<usize>,
        turn: isize,
        shift: (isize, isize),
        canvas_width: usize,
        canvas_height: usize,
    )
        requires
            -10 <= turn < 10,
            -20 <= shift.0 < 20,
            -20 <= shift.1 < 20,
            old(self).rotation + 10 <= isize::MAX,
            isize::MIN + 20 <= old(self).coors.0 <= isize::MAX - 20,
            isize::MIN + 20 <= old(self).coors.1 <= isize::MAX - 20,
            canvas_width <= isize::MAX,
            canvas_height <= isize::MAX,
        ensures
            *final(self) == old(self).mutated(
                new_id,
                turn as int,
                (shift.0 as int, shift.1 as int),
                canvas_width as int,
                canvas_height as int,
            ),
    {
        if let Some(i) = new_id {
            self.id = i;
        }
        let mut r: isize = self.rotation as isize + turn;
        if r < 0 {
            r = r + 360;
        }
        self.rotation = (r % 360) as usize;
        let w = canvas_width as isize;
        let h = canvas_height as isize;
        let mut x = self.coors.0 + shift.0;
        if x < 0 {
            x = 0;
        } else if x > w {
            x = w;
        }
        let mut y = self.coors.1 + shift.1;
        if y < 0 {
            y = 0;
        } else if y > h {
            y = h;
        }
        self.coors = (x, y);
        self.color = (0, 0, 0);
    }

    /// A random mutation: with one chance in ten another sprite of the atlas, a
    /// turn drawn from `-10..10` degrees, a shift drawn from `-20..20` on each
    /// axis (kept on the canvas), black as the colour, and `size_bits` as the new
    /// scale (drawn by the caller).
    pub fn mutate(&mut self, atlas: &Atlas, canvas: &MyImage, size_bits: u32)
        requires
            0 < atlas.nb_sprites <= atlas.ids@.len(),
            old(self).rotation + 10 <= isize::MAX,
            isize::MIN + 20 <= old(self).coors.0 <= isize::MAX - 20,
            isize::MIN + 20 <= old(self).coors.1 <= isize::MAX - 20,
            canvas.width <= isize::MAX,
            canvas.height <= isize::MAX,
        ensures
            exists|new_id: Option<usize>, turn: int, dx: int, dy: int|
                {
                    &&& (new_id is None || exists|k: int|
                        0 <= k < atlas.nb_sprites && atlas.ids@[k] == new_id->0)
                    &&& -10 <= turn < 10
                    &&& -20 <= dx < 20
                    &&& -20 <= dy < 20
                    &&& *final(self) == (Object {
                        size_bits,
                        ..#[trigger] old(self).mutated(
                            new_id,
                            turn,
                            (dx, dy),
                            canvas.width as int,
                            canvas.height as int,
                        )
                    })
                },
    {
        let mut rng = thread_rng();
        let roll = gen_below(&mut rng, 10);
        let k = if roll == 0 {
            gen_below(&mut rng, atlas.nb_sprites)
        } else {
            0
        };
        let new_id = Object::new_sprite(atlas, roll, k);
        let turn = gen_below(&mut rng, 20) as isize - 10;
        let dx = gen_below(&mut rng, 40) as isize - 20;
        let dy = gen_below(&mut rng, 40) as isize - 20;
        let ghost before = *self;
        self.apply_mutation(new_id, turn, (dx, dy), canvas.width, canvas.height);
        self.size_bits = size_bits;
        assert(*self == Object {
            size_bits,
            ..before.mutated(
                new_id,
                turn as int,
                (dx as int, dy as int),
                canvas.width as int,
                canvas.height as int,
            )
        });
    }

    /// A mutated copy of the object (see `mutate`); the object itself is unchanged.
    pub fn clone_and_mutate(&self, atlas: &Atlas, canvas: &MyImage, size_bits: u32) -> (o: Object)
        requires
            0 < atlas.nb_sprites <= atlas.ids@.len(),
            self.rotation + 10 <= isize::MAX,
            isize::MIN + 20 <= self.coors.0 <= isize::MAX - 20,
            isize::MIN + 20 <= self.coors.1 <= isize::MAX - 20,
            canvas.width <= isize::MAX,
            canvas.height <= isize::MAX,
        ensures
            exists|new_id: Option<usize>, turn: int, dx: int, dy: int|
                {
                    &&& (new_id is None || exists|k: int|
                        0 <= k < atlas.nb_sprites && atlas.ids@[k] == new_id->0)
                    &&& -10 <= turn < 10
                    &&& -20 <= dx < 20
                    &&& -20 <= dy < 20
                    &&& o == (Object {
                        size_bits,
                        ..#[trigger] self.mutated(
                            new_id,
                            turn,
                            (dx, dy),
                            canvas.width as int,
                            canvas.height as int,
                        )
                    })
                },
    {
        let mut new_object = *self;
        new_object.mutate(atlas, canvas, size_bits);
        new_object
    }

    /// The sprite part of `difference`: 100 for another sprite.
    pub open spec fn id_term(self, other: Object) -> int {
        if self.id != other.id {
            100
        } else {
            0
        }
    }

    /// The position part of `difference`: twice the Manhattan distance of the corners.
    pub open spec fn place_term(self, other: Object) -> int {
        2 * (abs(self.coors.0 - other.coors.0) + abs(self.coors.1 - other.coors.1))
    }

    /// The colour part of `difference`: the summed channel gaps.
    pub open spec fn colour_term(self, other: Object) -> int {
        abs(self.color.0 - other.color.0) + abs(self.color.1 - other.color.1) + abs(
            self.color.2 - other.color.2,
        )
    }

    /// How different two objects are: 100 for another sprite, ten times the
    /// rotation difference (signed), twice the Manhattan distance of the
    /// corners, `size_term` for the scales and the summed colour channel gaps.
    pub open spec fn difference_spec(self, other: Object, size_term: int) -> int {
        self.id_term(other) + 10 * (self.rotation - other.rotation) + self.place_term(other)
            + size_term + self.colour_term(other)
    }

    /// How different `self` is from `other` (see `difference_spec`); the scale
    /// part, computed from the two `f32` scales, is given as `size_term`.
    pub fn difference(&self, other: &Object, size_term: i64) -> (d: i64)
        requires
            self.rotation <= i32::MAX,
            other.rotation <= i32::MAX,
            abs(self.coors.0 - other.coors.0) + abs(self.coors.1 - other.coors.1) <= isize::MAX,
            self.place_term(*other) <= i64::MAX,
            self.id_term(*other) + 10 * (self.rotation - other.rotation) + self.place_term(*other)
                <= i64::MAX,
            i64::MIN <= self.id_term(*other) + 10 * (self.rotation - other.rotation)
                + self.place_term(*other) + size_term <= i64::MAX,
            self.difference_spec(*other, size_term as int) <= i64::MAX,
        ensures
            d == self.difference_spec(*other, size_term as int),
    {
        let id_term: i64 = if self.id != other.id {
            100
        } else {
            0
        };
        let rot: i64 = self.rotation as i64 - other.rotation as i64;
        let rot_term: i64 = rot * 10;
        let dx: i128 = self.coors.0 as i128 - other.coors.0 as i128;
        let dy: i128 = self.coors.1 as i128 - other.coors.1 as i128;
        let ax: i128 = if dx < 0 {
            -dx
        } else {
            dx
        };
        let ay: i128 = if dy < 0 {
            -dy
        } else {
            dy
        };
        let place_term: i64 = ((ax + ay) * 2) as i64;
        let colour_term: i64 = abs_i64(self.color.0 as i64 - other.color.0 as i64) + abs_i64(
            self.color.1 as i64 - other.color.1 as i64,
        ) + abs_i64(self.color.2 as i64 - other.color.2 as i64);
        assert(0 <= colour_term <= 765);
        let partial: i64 = id_term + rot_term + place_term + size_term;
        partial + colour_term
    }
}

/// An object differs from itself by nothing when the scales agree.
pub proof fn lemma_difference_self(o: Object)
    ensures
        o.difference_spec(o, 0) == 0,
{
}

/// Summed both ways, the signed rotation terms cancel: what is left is twice
/// the sprite, position and colour terms, plus the two scale terms.
pub proof fn lemma_difference_both_ways(a: Object, b: Object, size_ab: int, size_ba: int)
    ensures
        a.difference_spec(b, size_ab) + b.difference_spec(a, size_ba) == 2 * (a.id_term(b)
            + a.place_term(b) + a.colour_term(b)) + size_ab + size_ba,
{
}

/// Between two objects that differ only in colour, the difference (with no
/// scale term) is the sum of the red, green and blue gaps.
pub proof fn lemma_difference_colour_only(a: Object, b: Object)
    requires
        a.id == b.id,
        a.rotation == b.rotation,
        a.coors == b.coors,
    ensures
        a.difference_spec(b, 0) == abs(a.color.0 - b.color.0) + abs(a.color.1 - b.color.1) + abs(
            a.color.2 - b.color.2,
        ),
{
}

/// Raising the green channel of `b` by `g`, away from `a`'s green, raises the
/// difference between `a` and `b` by `g` (and likewise for red and blue).
pub proof fn lemma_difference_grows_with_colour_gap(a: Object, b: Object, g: u8, size_term: int)
    requires
        a.color.1 <= b.color.1,
        b.color.1 + g <= 255,
    ensures
        a.difference_spec(Object { color: (b.color.0, (b.color.1 + g) as u8, b.color.2), ..b }, size_term)
            == a.difference_spec(b, size_term) + g,
        a.color.0 <= b.color.0 && b.color.0 + g <= 255 ==> a.difference_spec(
            Object { color: ((b.color.0 + g) as u8, b.color.1, b.color.2), ..b },
            size_term,
        ) == a.difference_spec(b, size_term) + g,
        a.color.2 <= b.color.2 && b.color.2 + g <= 255 ==> a.difference_spec(
            Object { color: (b.color.0, b.color.1, (b.color.2 + g) as u8), ..b },
            size_term,
        ) == a.difference_spec(b, size_term) + g,
{
}

/// A mutation always leaves a rotation in `0..360` and a corner on the canvas.
pub proof fn lemma_mutation_in_bounds(
    o: Object,
    new_id: Option<usize>,
    turn: int,
    shift: (int, int),
    width: int,
    height: int,
)
    requires
        0 <= width <= isize::MAX,
        0 <= height <= isize::MAX,
    ensures
        o.mutated(new_id, turn, shift, width, height).rotation < 360,
        0 <= o.mutated(new_id, turn, shift, width, height).coors.0 <= width,
        0 <= o.mutated(new_id, turn, shift, width, height).coors.1 <= height,
        o.mutated(new_id, turn, shift, width, height).size_bits == o.size_bits,
{
    let r = o.rotation + turn;
    let v = if r < 0 {
        r + 360
    } else {
        r
    };
    assert(0 <= v % 360 < 360);
}

fn abs_i64(v: i64) -> (a: i64)
    requires
        v > i64::MIN,
    ensures
        a == abs(v as int),
{
    if v < 0 {
        -v
    } else {
        v
    }
}

} // verus!
