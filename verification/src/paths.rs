//! Paths as the archive index writes them, and paths relative to a base.

use vstd::prelude::*;
use vstd::utf8::*;
use crate::encoding::{
    all_scalars, decode_utf8_scalars, encode_utf8_scalars, scalars_to_chars, string_from_utf8,
};
use crate::xp3::archive::strings_view;

verus! {

broadcast use {vstd::utf8::char_u32_cast, vstd::utf8::char_is_scalar};

/// Backslashes turned into slashes.
pub open spec fn with_slashes(cs: Seq<char>) -> Seq<char> {
    cs.map_values(|c: char| if c == '\\' { '/' } else { c })
}

/// A path as the index writes it: backslashes turned into slashes, and one
/// leading `./` taken off.
pub open spec fn handled_path(cs: Seq<char>) -> Seq<char> {
    let t = with_slashes(cs);
    if t.len() >= 2 && t[0] == '.' && t[1] == '/' {
        t.skip(2)
    } else {
        t
    }
}

proof fn lemma_scalar_char(c: u32, x: char)
    requires
        is_scalar(c),
    ensures
        (c as char == x) <==> (c == x as u32),
{
    char_is_scalar(x);
    char_u32_cast(x, x as u32);
    if c as char == x {
        assert((c as char) as u32 == c);
    }
}

/// Turns backslashes into slashes and takes off one leading `./`.
pub fn path_str_handle(path: String) -> (res: String)
    ensures
        res@ == handled_path(path@),
{
    let bytes = path.as_str().as_bytes();
    proof {
        encode_utf8_valid_utf8(path@);
        encode_utf8_decode_utf8(path@);
    }
    let cps = match decode_utf8_scalars(bytes) {
        Some(c) => c,
        None => {
            return String::new();
        },
    };
    let ghost t = with_slashes(path@);
    let n = cps.len();
    let mut mapped: Vec<u32> = Vec::new();
    let mut i: usize = 0;
    while i < n
        invariant
            i <= n,
            n == cps@.len(),
            all_scalars(cps@),
            scalars_to_chars(cps@) == path@,
            t == with_slashes(path@),
            all_scalars(mapped@),
            scalars_to_chars(mapped@) =~= t.take(i as int),
        decreases n - i,
    {
        let c = cps[i];
        let d: u32 = if c == 0x5C {
            0x2F
        } else {
            c
        };
        proof {
            assert(is_scalar(cps@[i as int]));
            assert(path@[i as int] == c as char);
            lemma_scalar_char(c, '\\');
            lemma_scalar_char(0x2Fu32, '/');
            lemma_scalar_char(d, t[i as int]);
            assert(d as char == t[i as int]);
        }
        let ghost old_mapped = mapped@;
        mapped.push(d);
        assert(scalars_to_chars(mapped@) =~= scalars_to_chars(old_mapped).push(d as char));
        i = i + 1;
    }
    assert(t.take(n as int) =~= t);
    let start: usize = if n >= 2 && mapped[0] == 0x2E && mapped[1] == 0x2F {
        2
    } else {
        0
    };
    proof {
        assert(('.' as u32) == 0x2E);
        assert(('/' as u32) == 0x2F);
        if n >= 2 {
            assert(t[0] == scalars_to_chars(mapped@)[0]);
            assert(t[1] == scalars_to_chars(mapped@)[1]);
            lemma_scalar_char(mapped@[0], '.');
            lemma_scalar_char(mapped@[1], '/');
        }
    }
    let mut kept: Vec<u32> = Vec::new();
    let mut j: usize = start;
    while j < n
        invariant
            start <= j <= n,
            n == mapped@.len(),
            all_scalars(mapped@),
            all_scalars(kept@),
            kept@ =~= mapped@.subrange(start as int, j as int),
        decreases n - j,
    {
        kept.push(mapped[j]);
        j = j + 1;
    }
    assert(scalars_to_chars(kept@) =~= handled_path(path@));
    let out = encode_utf8_scalars(kept.as_slice());
    proof {
        encode_utf8_valid_utf8(scalars_to_chars(kept@));
        encode_utf8_decode_utf8(scalars_to_chars(kept@));
    }
    match string_from_utf8(out) {
        Some(s) => s,
        None => String::new(),
    }
}

/// `base` is a leading run of the components of `path`.
pub open spec fn has_component_prefix(path: Seq<Seq<char>>, base: Seq<Seq<char>>) -> bool {
    base.len() <= path.len() && path.take(base.len() as int) == base
}

/// Whether the components of `base` lead the components of `path`.
pub fn starts_with_components(path: &Vec<String>, base: &Vec<String>) -> (res: bool)
    ensures
        res == has_component_prefix(strings_view(path@), strings_view(base@)),
{
    let n = base.len();
    if n > path.len() {
        return false;
    }
    let mut i: usize = 0;
    while i < n
        invariant
            i <= n,
            n == base@.len(),
            n <= path@.len(),
            forall|k: int| 0 <= k < i ==> path@[k]@ == base@[k]@,
        decreases n - i,
    {
        if path[i] != base[i] {
            assert(strings_view(path@).take(n as int)[i as int] != strings_view(base@)[i as int]);
            return false;
        }
        i = i + 1;
    }
    assert(strings_view(path@).take(n as int) =~= strings_view(base@));
    true
}

/// The components of `path` after those of `base`, which lead it: the path
/// relative to the base, which joined onto the base gives the path. Both are
/// taken as canonical paths.
pub fn absolute_to_relative(base: &Vec<String>, path: &Vec<String>) -> (res: Vec<String>)
    requires
        has_component_prefix(strings_view(path@), strings_view(base@)),
    ensures
        strings_view(res@) == strings_view(path@).skip(base@.len() as int),
        strings_view(base@) + strings_view(res@) == strings_view(path@),
{
    let n = path.len();
    let mut res: Vec<String> = Vec::new();
    let mut i: usize = base.len();
    while i < n
        invariant
            base@.len() <= i <= n,
            n == path@.len(),
            strings_view(res@) =~= strings_view(path@).subrange(base@.len() as int, i as int),
        decreases n - i,
    {
        let c = path[i].clone();
        let ghost old_res = res@;
        res.push(c);
        assert(strings_view(res@) =~= strings_view(old_res).push(c@));
        i = i + 1;
    }
    assert(strings_view(path@).take(base@.len() as int) == strings_view(base@));
    assert(strings_view(base@) + strings_view(res@) =~= strings_view(path@));
    res
}

} // verus!
