use vstd::prelude::*;

use crate::myimage::MyImage;
use crate::trim::{can_trim, trim_raster};

verus! {

/// Index of the first `c` in `s[i..]`, or `s.len()` when there is none.
pub open spec fn first_index_of(s: Seq<char>, c: char, i: int) -> int
    decreases s.len() - i,
{
    if i >= s.len() {
        s.len() as int
    } else if s[i] == c {
        i
    } else {
        first_index_of(s, c, i + 1)
    }
}

/// Index just after the last `c` in `s[0..n]`, or 0 when there is none.
pub open spec fn after_last_of(s: Seq<char>, c: char, n: int) -> int
    decreases n,
{
    if n <= 0 {
        0
    } else if s[n - 1] == c {
        n
    } else {
        after_last_of(s, c, n - 1)
    }
}

/// The sprite's name in a path such as `objects\\917.png`: the part before the
/// first `.`, from its last `\\` on.
pub open spec fn sprite_name(path: Seq<char>) -> Seq<char> {
    let stem = path.take(first_index_of(path, '.', 0));
    stem.skip(after_last_of(stem, '\\', stem.len() as int))
}

pub open spec fn is_digit(c: char) -> bool {
    '0' <= c <= '9'
}

/// Value of a string of decimal digits.
pub open spec fn digits_value(d: Seq<char>) -> nat
    decreases d.len(),
{
    if d.len() == 0 {
        0
    } else {
        digits_value(d.drop_last()) * 10 + (d.last() as nat - '0' as nat) as nat
    }
}

/// Decimal text as read for a `usize`: an optional `+`, then one or more digits,
/// with a value that fits.
pub open spec fn parse_usize(s: Seq<char>) -> Option<usize> {
    let d = unsigned_part(s);
    if d.len() == 0 || !all_digits(d) || digits_value(d) > usize::MAX {
        None
    } else {
        Some(digits_value(d) as usize)
    }
}

/// The text without its leading `+`, if it has one.
pub open spec fn unsigned_part(s: Seq<char>) -> Seq<char> {
    if s.len() > 0 && s[0] == '+' {
        s.drop_first()
    } else {
        s
    }
}

/// Every character is a decimal digit.
pub open spec fn all_digits(d: Seq<char>) -> bool {
    forall|i: int| 0 <= i < d.len() ==> is_digit(#[trigger] d[i])
}

/// The id that a sprite's path names.
pub open spec fn sprite_id(path: Seq<char>) -> Option<usize> {
    parse_usize(sprite_name(path))
}

proof fn lemma_first_index_of_is(s: Seq<char>, c: char, i: int, t: int)
    requires
        0 <= i <= t <= s.len(),
        forall|j: int| i <= j < t ==> #[trigger] s[j] != c,
        t == s.len() || s[t] == c,
    ensures
        first_index_of(s, c, i) == t,
    decreases t - i,
{
    if i < t {
        lemma_first_index_of_is(s, c, i + 1, t);
    }
}

proof fn lemma_after_last_of_is(s: Seq<char>, c: char, n: int, t: int)
    requires
        0 <= t <= n <= s.len(),
        forall|j: int| t <= j < n ==> #[trigger] s[j] != c,
        t == 0 || s[t - 1] == c,
    ensures
        after_last_of(s, c, n) == t,
    decreases n - t,
{
    if t < n {
        lemma_after_last_of_is(s, c, n - 1, t);
    }
}

/// A longer digit string is worth at least as much as its prefix.
proof fn lemma_digits_value_prefix(d: Seq<char>, k: int)
    requires
        0 <= k <= d.len(),
        forall|i: int| 0 <= i < d.len() ==> is_digit(#[trigger] d[i]),
    ensures
        digits_value(d.take(k)) <= digits_value(d),
    decreases d.len() - k,
{
    if k < d.len() {
        lemma_digits_value_prefix(d, k + 1);
        assert(d.take(k + 1).drop_last() =~= d.take(k));
    } else {
        assert(d.take(k) =~= d);
    }
}

/// Reads the sprite id from a path: the text before the first `.`, from its last
/// `\\` on, as a `usize`; `None` when that text is not one.
pub fn sprite_id_from_path(path: &str) -> (id: Option<usize>)
    ensures
        id == sprite_id(path@),
{
    let ghost s = path@;
    let n = path.unicode_len();
    let mut dot: usize = 0;
    while dot < n
        invariant
            s == path@,
            n == s.len(),
            dot <= n,
            forall|j: int| 0 <= j < dot ==> #[trigger] s[j] != '.',
        ensures
            dot <= n,
            forall|j: int| 0 <= j < dot ==> #[trigger] s[j] != '.',
            dot == n || s[dot as int] == '.',
        decreases n - dot,
    {
        if path.get_char(dot) == '.' {
            break;
        }
        dot = dot + 1;
    }
    proof {
        lemma_first_index_of_is(s, '.', 0, dot as int);
    }
    let ghost stem = s.take(dot as int);
    let mut start: usize = dot;
    while start > 0
        invariant
            s == path@,
            n == s.len(),
            stem == s.take(dot as int),
            dot <= n,
            start <= dot,
            forall|j: int| start <= j < dot ==> #[trigger] s[j] != '\\',
        ensures
            start <= dot,
            forall|j: int| start <= j < dot ==> #[trigger] s[j] != '\\',
            start == 0 || s[start - 1] == '\\',
        decreases start,
    {
        if path.get_char(start - 1) == '\\' {
            break;
        }
        start = start - 1;
    }
    proof {
        assert forall|j: int| start <= j < dot implies #[trigger] stem[j] != '\\' by {
            assert(stem[j] == s[j]);
        }
        lemma_after_last_of_is(stem, '\\', dot as int, start as int);
    }
    let ghost name = stem.skip(start as int);
    assert(name =~= s.subrange(start as int, dot as int));
    assert(sprite_name(s) == name);
    let mut p: usize = start;
    if p < dot && path.get_char(p) == '+' {
        p = p + 1;
    }
    let ghost d = s.subrange(p as int, dot as int);
    proof {
        if name.len() > 0 && name[0] == '+' {
            assert(d =~= name.drop_first());
        } else {
            assert(d =~= name);
        }
    }
    if p == dot {
        return None;
    }
    let mut value: u128 = 0;
    let mut q: usize = p;
    while q < dot
        invariant
            s == path@,
            n == s.len(),
            p <= q <= dot <= n,
            d == s.subrange(p as int, dot as int),
            sprite_name(s) == name,
            d == unsigned_part(name),
            forall|j: int| p <= j < q ==> is_digit(#[trigger] s[j]),
            value == digits_value(d.take(q - p)),
            value <= usize::MAX,
        decreases dot - q,
    {
        let c = path.get_char(q);
        if !('0' <= c && c <= '9') {
            proof {
                assert(d[q - p] == c);
                assert(!is_digit(d[q - p]));
            }
            return None;
        }
        proof {
            assert(d.take(q - p + 1).drop_last() =~= d.take(q - p));
            assert(d.take(q - p + 1).last() == c);
        }
        let digit = (c as u32 - '0' as u32) as u128;
        value = value * 10 + digit;
        if value > usize::MAX as u128 {
            proof {
                if forall|i: int| 0 <= i < d.len() ==> is_digit(#[trigger] d[i]) {
                    lemma_digits_value_prefix(d, q - p + 1);
                }
            }
            return None;
        }
        q = q + 1;
    }
    proof {
        assert(d.take(q - p) =~= d);
        assert forall|i: int| 0 <= i < d.len() implies is_digit(#[trigger] d[i]) by {
            assert(d[i] == s[p + i]);
        }
    }
    Some(value as usize)
}

/// Index of the first entry with id `id` among `sprites[0..k]`, or `k` when there is none.
pub open spec fn first_with_id(sprites: Seq<(usize, MyImage)>, id: usize, k: int) -> int
    decreases k,
{
    if k <= 0 {
        0
    } else if first_with_id(sprites, id, k - 1) < k - 1 {
        first_with_id(sprites, id, k - 1)
    } else if sprites[k - 1].0 == id {
        k - 1
    } else {
        k
    }
}

/// The sprite registered first under `id`.
pub open spec fn sprite_lookup(sprites: Seq<(usize, MyImage)>, id: usize) -> MyImage {
    sprites[first_with_id(sprites, id, sprites.len() as int)].1
}

/// `first_with_id` is the first entry with that id.
pub proof fn lemma_first_with_id(sprites: Seq<(usize, MyImage)>, id: usize, k: int)
    requires
        0 <= k <= sprites.len(),
    ensures
        0 <= first_with_id(sprites, id, k) <= k,
        forall|j: int| 0 <= j < first_with_id(sprites, id, k) ==> (#[trigger] sprites[j]).0 != id,
        first_with_id(sprites, id, k) < k ==> sprites[first_with_id(sprites, id, k)].0 == id,
    decreases k,
{
    if k > 0 {
        lemma_first_with_id(sprites, id, k - 1);
    }
}

proof fn lemma_first_with_id_push(sprites: Seq<(usize, MyImage)>, e: (usize, MyImage), id: usize, k: int)
    requires
        0 <= k <= sprites.len(),
    ensures
        first_with_id(sprites.push(e), id, k) == first_with_id(sprites, id, k),
    decreases k,
{
    if k > 0 {
        lemma_first_with_id_push(sprites, e, id, k - 1);
        assert(sprites.push(e)[k - 1] == sprites[k - 1]);
    }
}

/// Looking a sprite up after registering it: an id seen for the first time
/// gives back the image just registered; an id already registered keeps giving
/// the earlier image.
pub proof fn lemma_lookup_after_add(sprites: Seq<(usize, MyImage)>, id: usize, img: MyImage)
    ensures
        (forall|i: int| 0 <= i < sprites.len() ==> (#[trigger] sprites[i]).0 != id) ==> sprite_lookup(
            sprites.push((id, img)),
            id,
        ) == img,
        (exists|i: int| 0 <= i < sprites.len() && (#[trigger] sprites[i]).0 == id) ==> sprite_lookup(
            sprites.push((id, img)),
            id,
        ) == sprite_lookup(sprites, id),
{
    let n = sprites.len() as int;
    let s2 = sprites.push((id, img));
    lemma_first_with_id_push(sprites, (id, img), id, n);
    lemma_first_with_id(sprites, id, n);
    if forall|i: int| 0 <= i < sprites.len() ==> (#[trigger] sprites[i]).0 != id {
        assert(first_with_id(sprites, id, n) == n);
        assert(s2[n] == (id, img));
    }
    if exists|i: int| 0 <= i < sprites.len() && (#[trigger] sprites[i]).0 == id {
        let w = choose|i: int| 0 <= i < sprites.len() && (#[trigger] sprites[i]).0 == id;
        assert(first_with_id(sprites, id, n) <= w);
        assert(first_with_id(sprites, id, n) < n);
        assert(s2[first_with_id(sprites, id, n)] == sprites[first_with_id(sprites, id, n)]);
    }
}

/// The sprites of a picture, each under the id that its file name gives.
pub struct Atlas {
    pub nb_sprites: usize,
    pub ids: Vec<usize>,
    pub sprites: Vec<(usize, MyImage)>,
}

impl Atlas {
    /// The count and the id list agree with the sprite list.
    pub open spec fn wf(&self) -> bool {
        &&& self.nb_sprites == self.ids@.len()
        &&& self.ids@.len() == self.sprites@.len()
        &&& forall|i: int| 0 <= i < self.ids@.len() ==> #[trigger] self.ids@[i] == self.sprites@[i].0
    }

    /// An atlas without sprites.
    pub fn new() -> (atlas: Atlas)
        ensures
            atlas.wf(),
            atlas.nb_sprites == 0,
            atlas.sprites@ == Seq::<(usize, MyImage)>::empty(),
    {
        Atlas { nb_sprites: 0, ids: Vec::new(), sprites: Vec::new() }
    }

    /// Registers `img` under the id read from `path`.
    pub fn add_sprite(&mut self, path: &str, img: MyImage)
        requires
            old(self).wf(),
            sprite_id(path@) is Some,
            old(self).nb_sprites < usize::MAX,
        ensures
            final(self).wf(),
            final(self).nb_sprites == old(self).nb_sprites + 1,
            final(self).ids@ == old(self).ids@.push(sprite_id(path@)->0),
            final(self).sprites@ == old(self).sprites@.push((sprite_id(path@)->0, img)),
    {
        let id = match sprite_id_from_path(path) {
            Some(id) => id,
            None => {
                proof {
                    assert(false);
                }
                0
            },
        };
        self.ids.push(id);
        self.sprites.push((id, img));
        self.nb_sprites = self.nb_sprites + 1;
    }

    /// An atlas of `images`, the `i`-th registered under the id read from `paths[i]`.
    pub fn load(paths: &[&str], images: Vec<MyImage>) -> (atlas: Atlas)
        requires
            paths@.len() == images@.len(),
            forall|i: int| 0 <= i < paths@.len() ==> sprite_id((#[trigger] paths@[i])@) is Some,
        ensures
            atlas.wf(),
            atlas.nb_sprites == paths@.len(),
            forall|i: int|
                0 <= i < paths@.len() ==> #[trigger] atlas.sprites@[i] == (
                    sprite_id(paths@[i]@)->0,
                    images@[i],
                ),
    {
        let ghost all = images@;
        let mut rest = images;
        let mut atlas = Atlas::new();
        let mut i: usize = 0;
        while i < paths.len()
            invariant
                paths@.len() == all.len(),
                forall|j: int| 0 <= j < paths@.len() ==> sprite_id((#[trigger] paths@[j])@) is Some,
                i <= paths@.len(),
                rest@ == all.skip(i as int),
                atlas.wf(),
                atlas.nb_sprites == i,
                forall|j: int|
                    0 <= j < i ==> #[trigger] atlas.sprites@[j] == (sprite_id(paths@[j]@)->0, all[j]),
            decreases paths@.len() - i,
        {
            let img = rest.remove(0);
            proof {
                assert(all.skip(i as int)[0] == all[i as int]);
                assert(all.skip(i as int).remove(0) =~= all.skip(i + 1));
            }
            atlas.add_sprite(paths[i], img);
            i = i + 1;
        }
        atlas
    }

    /// `load`, with every sprite trimmed.
    pub fn load_trim(paths: &[&str], images: Vec<MyImage>) -> (atlas: Atlas)
        requires
            paths@.len() == images@.len(),
            forall|i: int| 0 <= i < paths@.len() ==> sprite_id((#[trigger] paths@[i])@) is Some,
            forall|i: int|
                0 <= i < images@.len() ==> (#[trigger] images@[i]).wf() && can_trim(images@[i]@),
        ensures
            atlas.wf(),
            atlas.nb_sprites == paths@.len(),
            forall|i: int|
                0 <= i < paths@.len() ==> (#[trigger] atlas.sprites@[i]).0 == sprite_id(
                    paths@[i]@,
                )->0 && atlas.sprites@[i].1.wf() && atlas.sprites@[i].1@ == trim_raster(images@[i]@),
    {
        let ghost all = images@;
        let loaded = Atlas::load(paths, images);
        let Atlas { nb_sprites, ids, sprites } = loaded;
        let mut rest = sprites;
        let mut trimmed: Vec<(usize, MyImage)> = Vec::new();
        let mut i: usize = 0;
        while i < nb_sprites
            invariant
                paths@.len() == all.len(),
                nb_sprites == paths@.len(),
                ids@.len() == nb_sprites,
                forall|j: int| 0 <= j < nb_sprites ==> #[trigger] ids@[j] == sprite_id(paths@[j]@)->0,
                forall|j: int| 0 <= j < all.len() ==> (#[trigger] all[j]).wf() && can_trim(all[j]@),
                i <= nb_sprites,
                rest@.len() == nb_sprites - i,
                forall|j: int|
                    0 <= j < rest@.len() ==> #[trigger] rest@[j] == (
                        sprite_id(paths@[i + j]@)->0,
                        all[i + j],
                    ),
                trimmed@.len() == i,
                forall|j: int|
                    0 <= j < i ==> (#[trigger] trimmed@[j]).0 == sprite_id(paths@[j]@)->0
                        && trimmed@[j].1.wf() && trimmed@[j].1@ == trim_raster(all[j]@),
            decreases nb_sprites - i,
        {
            let ghost before = rest@;
            let entry = rest.remove(0);
            assert(entry == (sprite_id(paths@[i as int]@)->0, all[i as int]));
            let (id, img) = entry;
            let t = img.trim();
            trimmed.push((id, t));
            proof {
                assert forall|j: int| 0 <= j < rest@.len() implies #[trigger] rest@[j] == (
                    sprite_id(paths@[i + 1 + j]@)->0,
                    all[i + 1 + j],
                ) by {
                    assert(rest@[j] == before[j + 1]);
                    assert(before[j + 1] == (sprite_id(paths@[i + (j + 1)]@)->0, all[i + (j + 1)]));
                }
            }
            i = i + 1;
        }
        Atlas { nb_sprites, ids, sprites: trimmed }
    }

    /// The sprite registered first under `id`.
    pub fn get_sprite(&self, id: usize) -> (sprite: &MyImage)
        requires
            self.wf(),
            exists|i: int| 0 <= i < self.ids@.len() && self.ids@[i] == id,
        ensures
            *sprite == sprite_lookup(self.sprites@, id),
    {
        proof {
            lemma_first_with_id(self.sprites@, id, self.sprites@.len() as int);
            let w = choose|i: int| 0 <= i < self.ids@.len() && self.ids@[i] == id;
            assert(self.sprites@[w].0 == id);
        }
        let mut i: usize = 0;
        while i < self.sprites.len()
            invariant
                self.wf(),
                i <= self.sprites@.len(),
                forall|j: int| 0 <= j < i ==> (#[trigger] self.sprites@[j]).0 != id,
                first_with_id(self.sprites@, id, self.sprites@.len() as int) < self.sprites@.len(),
                0 <= first_with_id(self.sprites@, id, self.sprites@.len() as int),
                forall|j: int|
                    0 <= j < first_with_id(self.sprites@, id, self.sprites@.len() as int)
                        ==> (#[trigger] self.sprites@[j]).0 != id,
                self.sprites@[first_with_id(self.sprites@, id, self.sprites@.len() as int)].0 == id,
            decreases self.sprites@.len() - i,
        {
            if self.sprites[i].0 == id {
                return &self.sprites[i].1;
            }
            i = i + 1;
        }
        proof {
            assert(false);
        }
        &self.sprites[0].1
    }
}

} // verus!
