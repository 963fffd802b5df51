//! Building the local package inventory from the raw output of a
//! package-listing command: one filename per line, surrounding blank
//! space trimmed, every line parsed or the whole build rejected.

use vstd::prelude::*;
use vstd::string::StrSliceExecFns;

use crate::parse::{
    parse_filename, spec_filename_err, spec_parse_filename, substr, Nvr, ParseError,
};
use crate::strutil::{find, first_index_of, lemma_first_index_of};

verus! {

/// Blank characters stripped from the ends of the raw listing.
pub open spec fn is_space(c: char) -> bool {
    c == ' ' || c == '\n' || c == '\t' || c == '\r'
}

pub open spec fn trim_start(s: Seq<char>) -> Seq<char>
    decreases s.len(),
{
    if s.len() > 0 && is_space(s[0]) {
        trim_start(s.skip(1))
    } else {
        s
    }
}

pub open spec fn trim_end(s: Seq<char>) -> Seq<char>
    decreases s.len(),
{
    if s.len() > 0 && is_space(s.last()) {
        trim_end(s.drop_last())
    } else {
        s
    }
}

/// The input with blank characters removed from both ends.
pub open spec fn spec_trim(s: Seq<char>) -> Seq<char> {
    trim_end(trim_start(s))
}

/// The segments of `s` between occurrences of `c`: always one segment
/// more than there are separators, so an empty input yields one empty
/// segment.
pub open spec fn spec_split(s: Seq<char>, c: char) -> Seq<Seq<char>>
    decreases s.len(),
    via spec_split_decreases
{
    let k = first_index_of(s, c);
    if k < 0 {
        seq![s]
    } else {
        seq![s.take(k)] + spec_split(s.skip(k + 1), c)
    }
}

#[via_fn]
proof fn spec_split_decreases(s: Seq<char>, c: char) {
    lemma_first_index_of(s, c);
}

/// The lines the inventory is built from: the raw listing, trimmed,
/// split at newlines.
pub open spec fn lines_of(raw: Seq<char>) -> Seq<Seq<char>> {
    spec_split(spec_trim(raw), '\n')
}

/// Whether a line is a well-formed package filename.
pub open spec fn line_ok(l: Seq<char>) -> bool {
    spec_parse_filename(l) is Some
}

/// The reduced (name, version, release) triple of a well-formed line.
pub open spec fn line_nvr(l: Seq<char>) -> (Seq<char>, Seq<char>, Seq<char>) {
    let t = spec_parse_filename(l)->Some_0;
    (t.0, t.2, t.3)
}

/// The views of a sequence of strings.
pub open spec fn views(s: Seq<String>) -> Seq<Seq<char>> {
    s.map_values(|x: String| x@)
}

fn is_space_ch(c: char) -> (r: bool)
    ensures
        r == is_space(c),
{
    c == ' ' || c == '\n' || c == '\t' || c == '\r'
}

proof fn lemma_trim_start_skip(s: Seq<char>, f: int)
    requires
        0 <= f <= s.len(),
        forall|k: int| 0 <= k < f ==> is_space(s[k]),
        f < s.len() ==> !is_space(s[f]),
    ensures
        trim_start(s) == s.skip(f),
    decreases f,
{
    if f == 0 {
        assert(s.skip(0) =~= s);
    } else {
        assert(is_space(s[0]));
        assert forall|k: int| 0 <= k < f - 1 implies is_space(s.skip(1)[k]) by {
            assert(s.skip(1)[k] == s[k + 1]);
        }
        assert(f - 1 < s.skip(1).len() ==> !is_space(s.skip(1)[f - 1]));
        lemma_trim_start_skip(s.skip(1), f - 1);
        assert(s.skip(1).skip(f - 1) =~= s.skip(f));
    }
}

proof fn lemma_trim_end_take(s: Seq<char>, l: int)
    requires
        0 <= l <= s.len(),
        forall|k: int| l <= k < s.len() ==> is_space(s[k]),
        l > 0 ==> !is_space(s[l - 1]),
    ensures
        trim_end(s) == s.take(l),
    decreases s.len() - l,
{
    if l == s.len() {
        assert(s.take(l) =~= s);
    } else {
        assert(is_space(s.last()));
        assert forall|k: int| l <= k < s.drop_last().len() implies is_space(s.drop_last()[k]) by {
            assert(s.drop_last()[k] == s[k]);
        }
        assert(l > 0 ==> s.drop_last()[l - 1] == s[l - 1]);
        lemma_trim_end_take(s.drop_last(), l);
        assert(s.drop_last().take(l) =~= s.take(l));
    }
}

/// The input with blank characters removed from both ends.
pub fn trim(s: &str) -> (r: String)
    ensures
        r@ == spec_trim(s@),
{
    let len = s.unicode_len();
    let mut f: usize = 0;
    loop
        invariant
            f <= len,
            len == s@.len(),
            forall|k: int| 0 <= k < f ==> is_space(s@[k]),
        ensures
            f <= len,
            forall|k: int| 0 <= k < f ==> is_space(s@[k]),
            f < len ==> !is_space(s@[f as int]),
        decreases len - f,
    {
        if f >= len {
            break;
        }
        if !is_space_ch(s.get_char(f)) {
            break;
        }
        f = f + 1;
    }
    let mut l: usize = len;
    loop
        invariant
            f <= l <= len,
            len == s@.len(),
            forall|k: int| l <= k < len ==> is_space(s@[k]),
        ensures
            f <= l <= len,
            forall|k: int| l <= k < len ==> is_space(s@[k]),
            l > f ==> !is_space(s@[l - 1]),
        decreases l,
    {
        if l <= f {
            break;
        }
        if !is_space_ch(s.get_char(l - 1)) {
            break;
        }
        l = l - 1;
    }
    let r = substr(s, f, l);
    proof {
        lemma_trim_start_skip(s@, f as int);
        assert forall|k: int| l - f <= k < s@.skip(f as int).len() implies is_space(
            s@.skip(f as int)[k],
        ) by {
            assert(s@.skip(f as int)[k] == s@[k + f]);
        }
        assert(l - f > 0 ==> s@.skip(f as int)[l - f - 1] == s@[l - 1]);
        lemma_trim_end_take(s@.skip(f as int), l - f);
        assert(s@.skip(f as int).take(l - f) =~= s@.subrange(f as int, l as int));
    }
    r
}

/// Split a string at newline characters.
pub fn split_newlines(s: &str) -> (r: Vec<String>)
    ensures
        views(r@) == spec_split(s@, '\n'),
{
    let mut out: Vec<String> = Vec::new();
    let mut rest: String = s.to_owned();
    loop
        invariant
            spec_split(s@, '\n') =~= views(out@) + spec_split(rest@, '\n'),
        decreases rest@.len(),
    {
        proof {
            lemma_first_index_of(rest@, '\n');
        }
        let ghost prev_out = out@;
        let ghost prev_rest = rest@;
        match find(rest.as_str(), '\n') {
            None => {
                out.push(rest);
                proof {
                    assert(views(out@) =~= views(prev_out).push(prev_rest));
                    assert(spec_split(prev_rest, '\n') =~= seq![prev_rest]);
                    assert(views(prev_out) + spec_split(prev_rest, '\n') =~= views(out@));
                    assert(views(out@) =~= spec_split(s@, '\n'));
                }
                return out;
            },
            Some(k) => {
                let len = rest.unicode_len();
                let piece = substr(rest.as_str(), 0, k);
                let newrest = substr(rest.as_str(), k + 1, len);
                out.push(piece);
                rest = newrest;
                proof {
                    assert(piece@ =~= prev_rest.take(k as int));
                    assert(rest@ =~= prev_rest.skip(k + 1));
                    assert(spec_split(prev_rest, '\n') =~= seq![prev_rest.take(k as int)]
                        + spec_split(prev_rest.skip(k + 1), '\n'));
                    assert(views(out@) =~= views(prev_out).push(piece@));
                    assert(views(out@) + spec_split(rest@, '\n') =~= views(prev_out) + spec_split(
                        prev_rest,
                        '\n',
                    ));
                }
            },
        }
    }
}

/// Build the local inventory from the raw newline-separated output of
/// the package lister. Succeeds exactly when, after trimming, every
/// line is a well-formed package filename; the first malformed line
/// aborts the build with its parse error.
pub fn build_inventory(raw: &str) -> (r: Result<Vec<Nvr>, ParseError>)
    ensures
        match r {
            Ok(inv) => {
                &&& inv@.len() == lines_of(raw@).len()
                &&& forall|i: int| 0 <= i < inv@.len() ==> line_ok(lines_of(raw@)[i])
                &&& forall|i: int|
                    0 <= i < inv@.len() ==> inv@[i].key() == line_nvr(lines_of(raw@)[i])
            },
            Err(e) => exists|i: int|
                {
                    &&& 0 <= i < lines_of(raw@).len()
                    &&& !line_ok(lines_of(raw@)[i])
                    &&& forall|k: int| 0 <= k < i ==> line_ok(lines_of(raw@)[k])
                    &&& e.input@ == spec_filename_err(lines_of(raw@)[i])
                },
        },
{
    let t = trim(raw);
    let lines = split_newlines(t.as_str());
    let mut inv: Vec<Nvr> = Vec::new();
    let mut i: usize = 0;
    while i < lines.len()
        invariant
            views(lines@) == lines_of(raw@),
            i <= lines@.len(),
            inv@.len() == i,
            forall|k: int| 0 <= k < i ==> line_ok(lines_of(raw@)[k]),
            forall|k: int| 0 <= k < i ==> inv@[k].key() == line_nvr(lines_of(raw@)[k]),
        decreases lines@.len() - i,
    {
        let ghost cur = lines_of(raw@)[i as int];
        proof {
            assert(views(lines@)[i as int] == lines@[i as int]@);
            assert(lines@[i as int]@ == cur);
        }
        match parse_filename(lines[i].as_str()) {
            Err(e) => {
                proof {
                    assert({
                        &&& 0 <= (i as int) && (i as int) < lines_of(raw@).len()
                        &&& !line_ok(lines_of(raw@)[i as int])
                        &&& forall|k: int| 0 <= k < i as int ==> line_ok(lines_of(raw@)[k])
                        &&& e.input@ == spec_filename_err(lines_of(raw@)[i as int])
                    });
                }
                return Err(e);
            },
            Ok(ne) => {
                let ghost flds = ne.fields();
                inv.push(ne.to_nvr());
                proof {
                    assert(spec_parse_filename(cur) == Some(flds));
                    assert(line_ok(cur));
                    assert(inv@[i as int].key() == line_nvr(cur));
                }
            },
        }
        i = i + 1;
    }
    Ok(inv)
}

} // verus!
