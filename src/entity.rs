//! Helpers of the entity repository: paged requests and table names.
use vstd::prelude::*;
use crate::text::chars_of;

verus! {

/// A paged request: the page size, the page number and the sort clause.
pub struct PageRequest {
    pub size: i64,
    pub num: i64,
    pub sort: String,
}

impl Default for PageRequest {
    /// The first page of ten, unsorted.
    fn default() -> (r: Self)
        ensures
            r.size == 10,
            r.num == 0,
            r.sort@.len() == 0,
    {
        Self { size: 10, num: 0, sort: String::new() }
    }
}

/// Whether std counts the character as uppercase.
pub uninterp spec fn unicode_uppercase(c: char) -> bool;

/// The characters std maps an uppercase character to in lowercase.
pub uninterp spec fn lowercase_of(c: char) -> Seq<char>;

/// Relies on `char::is_uppercase`: whether the character has the Unicode
/// uppercase property.
#[verifier::external_body]
fn uppercase(c: char) -> (r: bool)
    ensures
        r == unicode_uppercase(c),
{
    c.is_uppercase()
}

/// Relies on `char::to_lowercase`: the lowercase mapping of the character,
/// one or more characters.
#[verifier::external_body]
fn lowercase(c: char) -> (r: Vec<char>)
    ensures
        r@ == lowercase_of(c),
{
    c.to_lowercase().collect()
}

/// What the character at `i` becomes: an uppercase one turns lowercase,
/// with `_` before it unless it is the first character or its position is
/// one short of `blen`, the text's length in bytes.
pub open spec fn snake_piece(s: Seq<char>, blen: int, i: int) -> Seq<char> {
    if unicode_uppercase(s[i]) {
        if i != 0 && i + 1 != blen {
            seq!['_'] + lowercase_of(s[i])
        } else {
            lowercase_of(s[i])
        }
    } else {
        seq![s[i]]
    }
}

/// The pieces of the first `i` characters.
pub open spec fn snake_upto(s: Seq<char>, blen: int, i: int) -> Seq<char>
    decreases i,
{
    if i <= 0 {
        Seq::empty()
    } else {
        snake_upto(s, blen, i - 1) + snake_piece(s, blen, i - 1)
    }
}

/// A camel-case name in snake case: `DataSet` gives `data_set`.
pub fn to_snake_name(name: &str) -> (r: String)
    ensures
        r@ == snake_upto(name@, name.len() as int, name@.len() as int),
{
    let cs = chars_of(name);
    let blen = name.len();
    let mut out: Vec<char> = Vec::new();
    let mut i: usize = 0;
    while i < cs.len()
        invariant
            i <= cs@.len(),
            cs@ == name@,
            blen == name.len(),
            out@ == snake_upto(name@, blen as int, i as int),
        decreases cs@.len() - i,
    {
        let c = cs[i];
        let ghost before = out@;
        if uppercase(c) {
            if i != 0 && i + 1 != blen {
                out.push('_');
            }
            let low = lowercase(c);
            let mut k: usize = 0;
            let ghost mid = out@;
            while k < low.len()
                invariant
                    k <= low@.len(),
                    out@ == mid + low@.take(k as int),
                decreases low@.len() - k,
            {
                out.push(low[k]);
                k = k + 1;
                assert(out@ =~= mid + low@.take(k as int));
            }
            assert(low@.take(k as int) =~= low@);
        } else {
            out.push(c);
        }
        assert(out@ =~= before + snake_piece(name@, blen as int, i as int));
        i = i + 1;
    }
    crate::text::string_of(&out)
}

} // verus!
