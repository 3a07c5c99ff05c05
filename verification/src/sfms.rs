//! The first line of a matrix file: an optional `#SFMS` preamble whose
//! `dlt=` word names the link type of the survey. A file without preamble
//! (an export older than the preamble) is an Ethernet survey.

use vstd::prelude::*;

use crate::error::SonarCoreError;
use crate::link::LINKTYPE_ETHERNET;
use crate::text::{chars_of, list_item_ranges, list_items, str_eq, string_of_range};

verus! {

/// The word that opens a preamble.
pub open spec fn preamble_mark() -> Seq<char> {
    "#SFMS"@
}

/// The key of the link type word.
pub open spec fn dlt_key() -> Seq<char> {
    seq!['d', 'l', 't', '=']
}

/// The words of a line: separated by spaces, trimmed, empty ones dropped.
pub open spec fn words_of(line: Seq<char>) -> Seq<Seq<char>> {
    list_items(line, ' ')
}

/// Whether a line is a preamble: its first word is `#SFMS`.
pub open spec fn is_preamble(line: Seq<char>) -> bool {
    words_of(line).len() > 0 && words_of(line)[0] == preamble_mark()
}

/// The value of the first `dlt=` word among `words`, if any.
pub open spec fn dlt_value(words: Seq<Seq<char>>) -> Option<Seq<char>>
    decreases words.len(),
{
    if words.len() == 0 {
        None
    } else if words[0].len() >= 4 && words[0].take(4) == dlt_key() {
        Some(words[0].skip(4))
    } else {
        dlt_value(words.drop_first())
    }
}

/// The link type a preamble name stands for, among those this library
/// reads back from a matrix file.
pub open spec fn named_link_type(name: Seq<char>) -> Option<u32> {
    if name == "ETHERNET"@ {
        Some(LINKTYPE_ETHERNET)
    } else {
        None
    }
}

/// What the first line of a matrix file says: the survey's link type and
/// whether the line is a preamble (the header then follows it); a preamble
/// without `dlt=` word is an Ethernet survey; a preamble naming a link type
/// that cannot be read back gives that name as error.
pub open spec fn preamble_reading(line: Seq<char>) -> Result<(u32, bool), Seq<char>> {
    if !is_preamble(line) {
        Ok((LINKTYPE_ETHERNET, false))
    } else {
        match dlt_value(words_of(line).drop_first()) {
            None => Ok((LINKTYPE_ETHERNET, true)),
            Some(n) => match named_link_type(n) {
                Some(lt) => Ok((lt, true)),
                None => Err(n),
            },
        }
    }
}

/// Reads the first line of a matrix file (`path`): the survey's link type
/// and whether the line is a preamble to skip before the header. A survey
/// whose preamble names a link type that cannot be read back is refused
/// with that name, rather than read as another link type.
pub fn matrix_preamble(first_line: &str, path: &str) -> (r: Result<(u32, bool), SonarCoreError>)
    ensures
        match preamble_reading(first_line@) {
            Ok(p) => r == Ok::<(u32, bool), SonarCoreError>(p),
            Err(n) => r matches Err(SonarCoreError::UnreimportableLinkType { path: p, label }) && p@ == path@
                && label@ == n,
        },
{
    let v = chars_of(first_line);
    let words = list_item_ranges(&v, ' ');
    let ghost ws = words_of(first_line@);
    assert(ws == list_items(v@, ' '));
    if words.len() == 0 {
        return Ok((LINKTYPE_ETHERNET, false));
    }
    assert(crate::text::range_holds(v@, words@[0], ws[0]));
    let (lo, hi) = words[0];
    let first = string_of_range(&v, lo, hi);
    assert(first@ == ws[0]);
    if !str_eq(first.as_str(), "#SFMS") {
        return Ok((LINKTYPE_ETHERNET, false));
    }
    assert(is_preamble(first_line@));
    let mut k: usize = 1;
    assert(ws.drop_first() =~= ws.subrange(1, ws.len() as int));
    while k < words.len()
        invariant
            1 <= k <= words@.len(),
            words@.len() == ws.len(),
            ws == list_items(v@, ' '),
            v@ == first_line@,
            ws == words_of(first_line@),
            is_preamble(first_line@),
            forall|q: int| 0 <= q < words@.len() ==> #[trigger] crate::text::range_holds(v@, words@[q], ws[q]),
            dlt_value(ws.drop_first()) == dlt_value(ws.subrange(k as int, ws.len() as int)),
        decreases words@.len() - k,
    {
        let (lo, hi) = words[k];
        assert(crate::text::range_holds(v@, words@[k as int], ws[k as int]));
        let ghost rest = ws.subrange(k as int, ws.len() as int);
        assert(rest[0] == ws[k as int]);
        assert(rest.drop_first() =~= ws.subrange(k + 1, ws.len() as int));
        if hi - lo >= 4 && v[lo] == 'd' && v[lo + 1] == 'l' && v[lo + 2] == 't' && v[lo + 3] == '=' {
            assert(ws[k as int].take(4) =~= dlt_key());
            let value = string_of_range(&v, lo + 4, hi);
            assert(value@ =~= ws[k as int].skip(4));
            if str_eq(value.as_str(), "ETHERNET") {
                return Ok((LINKTYPE_ETHERNET, true));
            }
            return Err(SonarCoreError::UnreimportableLinkType { path: path.to_owned(), label: value });
        }
        assert(!(ws[k as int].len() >= 4 && ws[k as int].take(4) == dlt_key())) by {
            if ws[k as int].len() >= 4 && ws[k as int].take(4) == dlt_key() {
                assert(ws[k as int][0] == v@[lo as int]);
                assert(ws[k as int][1] == v@[lo + 1]);
                assert(ws[k as int][2] == v@[lo + 2]);
                assert(ws[k as int][3] == v@[lo + 3]);
                assert(ws[k as int].take(4)[0] == 'd');
                assert(ws[k as int].take(4)[1] == 'l');
                assert(ws[k as int].take(4)[2] == 't');
                assert(ws[k as int].take(4)[3] == '=');
            }
        }
        k = k + 1;
    }
    assert(ws.subrange(k as int, ws.len() as int) =~= Seq::<Seq<char>>::empty());
    Ok((LINKTYPE_ETHERNET, true))
}

} // verus!
