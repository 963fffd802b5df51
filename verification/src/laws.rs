//! The library's laws: round trips of the identifier parser, its
//! rejection of malformed input, the insensitivity of inventory
//! matching to epoch and architecture, and what the relevance filter
//! and the classifier guarantee of their outputs.

use vstd::prelude::*;

use crate::classify::{
    build_triple, builds_parse, in_interests, inv_has, name_installed, rec_qualifies,
    spec_relevant, view_relevant, RecView,
};
use crate::parse::{
    spec_parse_filename, spec_parse_nevra, spec_parse_nvr, Nevra,
};
use crate::strutil::{
    first_index_of, last_index_of, lemma_first_index_of, lemma_first_index_of_unique,
    lemma_last_index_of_unique, lemma_lex_trichotomy, lex_lt,
};

verus! {

/// Splitting `name-version-release` from the right recovers the three
/// parts exactly, for any name, as long as version and release are
/// free of `-`.
pub proof fn lemma_nvr_round_trip(n: Seq<char>, v: Seq<char>, rl: Seq<char>)
    requires
        forall|k: int| 0 <= k < v.len() ==> v[k] != '-',
        forall|k: int| 0 <= k < rl.len() ==> rl[k] != '-',
    ensures
        spec_parse_nvr(n + seq!['-'] + v + seq!['-'] + rl) == Some((n, v, rl)),
{
    let s = n + seq!['-'] + v + seq!['-'] + rl;
    let i: int = n.len() as int + 1 + v.len() as int;
    assert(s.len() == n.len() + 1 + v.len() + 1 + rl.len());
    assert(s[i] == '-');
    assert forall|k: int| i < k < s.len() implies s[k] != '-' by {
        assert(s[k] == rl[k - i - 1]);
    }
    lemma_last_index_of_unique(s, '-', i);
    let p = s.take(i);
    assert(p =~= n + seq!['-'] + v);
    assert(p[n.len() as int] == '-');
    assert forall|k: int| n.len() < k < p.len() implies p[k] != '-' by {
        assert(p[k] == v[k - n.len() - 1]);
    }
    lemma_last_index_of_unique(p, '-', n.len() as int);
    assert(s.take(n.len() as int) =~= n);
    assert(s.subrange(n.len() as int + 1, i) =~= v);
    assert(s.skip(i + 1) =~= rl);
}

/// A filename with an explicit epoch parses back to exactly its five
/// fields: the name may contain `-`, the version `:` and everything
/// may contain `.`, as long as the epoch is free of `:` and `-`, the
/// version and release of `-`, and the architecture and extension of
/// `.`.
pub proof fn lemma_filename_round_trip(
    n: Seq<char>,
    e: Seq<char>,
    v: Seq<char>,
    rl: Seq<char>,
    a: Seq<char>,
    x: Seq<char>,
)
    requires
        forall|k: int| 0 <= k < e.len() ==> e[k] != ':' && e[k] != '-',
        forall|k: int| 0 <= k < v.len() ==> v[k] != '-',
        forall|k: int| 0 <= k < rl.len() ==> rl[k] != '-',
        forall|k: int| 0 <= k < a.len() ==> a[k] != '.',
        forall|k: int| 0 <= k < x.len() ==> x[k] != '.',
    ensures
        spec_parse_filename(
            n + seq!['-'] + e + seq![':'] + v + seq!['-'] + rl + seq!['.'] + a + seq!['.'] + x,
        ) == Some((n, e, v, rl, a)),
{
    let ev = e + seq![':'] + v;
    let nevra = n + seq!['-'] + ev + seq!['-'] + rl + seq!['.'] + a;
    let s = nevra + seq!['.'] + x;
    assert(n + seq!['-'] + e + seq![':'] + v + seq!['-'] + rl + seq!['.'] + a + seq!['.'] + x
        =~= s);
    // the extension separator is the last '.' of the whole string
    assert(s[nevra.len() as int] == '.');
    assert forall|k: int| nevra.len() < k < s.len() implies s[k] != '.' by {
        assert(s[k] == x[k - nevra.len() - 1]);
    }
    lemma_last_index_of_unique(s, '.', nevra.len() as int);
    assert(s.take(nevra.len() as int) =~= nevra);
    lemma_nevra_epoch(n, e, v, rl, a);
    assert(n + seq!['-'] + e + seq![':'] + v + seq!['-'] + rl + seq!['.'] + a =~= nevra);
}

/// A `name-epoch:version-release.arch` string parses back to its five
/// fields.
pub proof fn lemma_nevra_epoch(n: Seq<char>, e: Seq<char>, v: Seq<char>, rl: Seq<char>, a: Seq<char>)
    requires
        forall|k: int| 0 <= k < e.len() ==> e[k] != ':' && e[k] != '-',
        forall|k: int| 0 <= k < v.len() ==> v[k] != '-',
        forall|k: int| 0 <= k < rl.len() ==> rl[k] != '-',
        forall|k: int| 0 <= k < a.len() ==> a[k] != '.',
    ensures
        spec_parse_nevra(n + seq!['-'] + e + seq![':'] + v + seq!['-'] + rl + seq!['.'] + a)
            == Some((n, e, v, rl, a)),
{
    let ev = e + seq![':'] + v;
    let nevr = n + seq!['-'] + ev + seq!['-'] + rl;
    let s = nevr + seq!['.'] + a;
    assert(n + seq!['-'] + e + seq![':'] + v + seq!['-'] + rl + seq!['.'] + a =~= s);
    // the architecture separator is the last '.'
    assert(s[nevr.len() as int] == '.');
    assert forall|k: int| nevr.len() < k < s.len() implies s[k] != '.' by {
        assert(s[k] == a[k - nevr.len() - 1]);
    }
    lemma_last_index_of_unique(s, '.', nevr.len() as int);
    assert(s.take(nevr.len() as int) =~= nevr);
    assert(s.skip(nevr.len() as int + 1) =~= a);
    // the reference splits into name, epoch:version, release
    assert forall|k: int| 0 <= k < ev.len() implies ev[k] != '-' by {
        if k < e.len() {
            assert(ev[k] == e[k]);
        } else if k > e.len() {
            assert(ev[k] == v[k - e.len() - 1]);
        }
    }
    lemma_nvr_round_trip(n, ev, rl);
    // the epoch precedes the first ':' of the middle part
    assert(ev[e.len() as int] == ':');
    assert forall|k: int| 0 <= k < e.len() implies ev[k] != ':' by {
        assert(ev[k] == e[k]);
    }
    lemma_first_index_of_unique(ev, ':', e.len() as int);
    assert(ev.take(e.len() as int) =~= e);
    assert(ev.skip(e.len() as int + 1) =~= v);
}

/// Without a `:` in the middle part, the epoch defaults to `"0"` and
/// the version is the whole middle part.
pub proof fn lemma_nevra_no_epoch(n: Seq<char>, v: Seq<char>, rl: Seq<char>, a: Seq<char>)
    requires
        forall|k: int| 0 <= k < v.len() ==> v[k] != ':' && v[k] != '-',
        forall|k: int| 0 <= k < rl.len() ==> rl[k] != '-',
        forall|k: int| 0 <= k < a.len() ==> a[k] != '.',
    ensures
        spec_parse_nevra(n + seq!['-'] + v + seq!['-'] + rl + seq!['.'] + a) == Some(
            (n, seq!['0'], v, rl, a),
        ),
{
    let nevr = n + seq!['-'] + v + seq!['-'] + rl;
    let s = nevr + seq!['.'] + a;
    assert(n + seq!['-'] + v + seq!['-'] + rl + seq!['.'] + a =~= s);
    assert(s[nevr.len() as int] == '.');
    assert forall|k: int| nevr.len() < k < s.len() implies s[k] != '.' by {
        assert(s[k] == a[k - nevr.len() - 1]);
    }
    lemma_last_index_of_unique(s, '.', nevr.len() as int);
    assert(s.take(nevr.len() as int) =~= nevr);
    assert(s.skip(nevr.len() as int + 1) =~= a);
    lemma_nvr_round_trip(n, v, rl);
    lemma_first_index_of(v, ':');
    if first_index_of(v, ':') >= 0 {
        assert(v[first_index_of(v, ':')] == ':');
        assert(false);
    }
}

/// A filename with no epoch marker parses with epoch `"0"`.
pub proof fn lemma_filename_no_epoch(
    n: Seq<char>,
    v: Seq<char>,
    rl: Seq<char>,
    a: Seq<char>,
    x: Seq<char>,
)
    requires
        forall|k: int| 0 <= k < v.len() ==> v[k] != ':' && v[k] != '-',
        forall|k: int| 0 <= k < rl.len() ==> rl[k] != '-',
        forall|k: int| 0 <= k < a.len() ==> a[k] != '.',
        forall|k: int| 0 <= k < x.len() ==> x[k] != '.',
    ensures
        spec_parse_filename(
            n + seq!['-'] + v + seq!['-'] + rl + seq!['.'] + a + seq!['.'] + x,
        ) == Some((n, seq!['0'], v, rl, a)),
{
    let nevra = n + seq!['-'] + v + seq!['-'] + rl + seq!['.'] + a;
    let s = nevra + seq!['.'] + x;
    assert(n + seq!['-'] + v + seq!['-'] + rl + seq!['.'] + a + seq!['.'] + x =~= s);
    assert(s[nevra.len() as int] == '.');
    assert forall|k: int| nevra.len() < k < s.len() implies s[k] != '.' by {
        assert(s[k] == x[k - nevra.len() - 1]);
    }
    lemma_last_index_of_unique(s, '.', nevra.len() as int);
    assert(s.take(nevra.len() as int) =~= nevra);
    lemma_nevra_no_epoch(n, v, rl, a);
    assert(n + seq!['-'] + v + seq!['-'] + rl + seq!['.'] + a =~= nevra);
}

/// Malformed input is rejected: a filename without enough `.`
/// segments, and a reference without enough `-` parts, fail to parse.
pub proof fn lemma_malformed_rejected(s: Seq<char>)
    ensures
        last_index_of(s, '.') < 0 ==> spec_parse_filename(s) is None,
        last_index_of(s, '.') >= 0 && last_index_of(s.take(last_index_of(s, '.')), '.') < 0
            ==> spec_parse_filename(s) is None,
        last_index_of(s, '.') >= 0 && last_index_of(s.take(last_index_of(s, '.')), '.') >= 0
            && spec_parse_nvr(
            s.take(last_index_of(s, '.')).take(
                last_index_of(s.take(last_index_of(s, '.')), '.'),
            ),
        ) is None ==> spec_parse_filename(s) is None,
        last_index_of(s, '-') < 0 ==> spec_parse_nvr(s) is None,
        last_index_of(s, '-') >= 0 && last_index_of(s.take(last_index_of(s, '-')), '-') < 0
            ==> spec_parse_nvr(s) is None,
{
}

/// Inventory matching ignores epoch and architecture: two identifiers
/// that agree on name, version and release reduce to the same key,
/// whatever their epochs and architectures.
pub proof fn lemma_match_ignores_epoch_arch(a: Nevra, b: Nevra, inv: Seq<crate::parse::Nvr>)
    requires
        a.name@ == b.name@,
        a.version@ == b.version@,
        a.release@ == b.release@,
    ensures
        inv_has(inv, (a.name@, a.version@, a.release@)) == inv_has(
            inv,
            (b.name@, b.version@, b.release@),
        ),
{
}

/// Every record the relevance filter keeps passes both filters, and
/// every record passing both filters is kept.
pub proof fn lemma_relevant_characterized(updates: Seq<RecView>, u: Seq<char>)
    ensures
        forall|m: int|
            0 <= m < spec_relevant(updates, u).len() ==> view_relevant(
                #[trigger] spec_relevant(updates, u)[m],
                u,
            ),
        forall|k: int|
            0 <= k < updates.len() && view_relevant(#[trigger] updates[k], u) ==> spec_relevant(
                updates,
                u,
            ).contains(updates[k]),
{
    assert forall|m: int| 0 <= m < spec_relevant(updates, u).len() implies view_relevant(
        #[trigger] spec_relevant(updates, u)[m],
        u,
    ) by {
        Seq::lemma_filter_pred(updates, |rv: RecView| view_relevant(rv, u), m);
    }
    assert forall|k: int|
        0 <= k < updates.len() && view_relevant(#[trigger] updates[k], u) implies spec_relevant(
        updates,
        u,
    ).contains(updates[k]) by {
        Seq::lemma_filter_contains(updates, |rv: RecView| view_relevant(rv, u), k);
    }
}

/// A record authored by the user is excluded from the relevant set,
/// whatever its builds hold.
pub proof fn lemma_author_filtered(updates: Seq<RecView>, u: Seq<char>)
    ensures
        forall|m: int|
            0 <= m < spec_relevant(updates, u).len() ==> (#[trigger] spec_relevant(updates, u)[m]).1
                != u,
{
    lemma_relevant_characterized(updates, u);
}

/// A record the user commented on is excluded from the relevant set,
/// whoever authored it.
pub proof fn lemma_commented_filtered(updates: Seq<RecView>, u: Seq<char>)
    ensures
        forall|m: int|
            0 <= m < spec_relevant(updates, u).len() ==> match (#[trigger] spec_relevant(
                updates,
                u,
            )[m]).2 {
                Some(cs) => forall|i: int| 0 <= i < cs.len() ==> cs[i] != u,
                None => true,
            },
{
    lemma_relevant_characterized(updates, u);
}

/// A strictly sorted list is ascending and free of duplicates.
pub proof fn lemma_sorted_no_duplicates(s: Seq<Seq<char>>, i: int, j: int)
    requires
        crate::classify::strictly_sorted(s),
        0 <= i < j < s.len(),
    ensures
        lex_lt(s[i], s[j]),
        s[i] != s[j],
{
    lemma_lex_trichotomy(s[i], s[j]);
}

/// For a record with a single build, qualifying as interesting-pending
/// means exactly: the build's name is installed and watched, and its
/// exact triple is not installed.
pub proof fn lemma_single_build_interesting(
    rv: RecView,
    inv: Seq<crate::parse::Nvr>,
    ints: Seq<Seq<char>>,
)
    requires
        rv.3.len() == 1,
        builds_parse(rv),
    ensures
        rec_qualifies(rv, inv, ints) == {
            &&& !inv_has(inv, build_triple(rv, 0))
            &&& name_installed(inv, build_triple(rv, 0).0)
            &&& in_interests(ints, build_triple(rv, 0).0)
        },
{
    if rec_qualifies(rv, inv, ints) {
        let j1 = choose|j: int| 0 <= j < rv.3.len() && !inv_has(inv, build_triple(rv, j));
        let j2 = choose|j: int|
            0 <= j < rv.3.len() && name_installed(inv, build_triple(rv, j).0);
        let j3 = choose|j: int| 0 <= j < rv.3.len() && in_interests(ints, build_triple(rv, j).0);
        assert(j1 == 0 && j2 == 0 && j3 == 0);
    }
    if !inv_has(inv, build_triple(rv, 0)) && name_installed(inv, build_triple(rv, 0).0)
        && in_interests(ints, build_triple(rv, 0).0) {
        assert(0 <= 0 < rv.3.len() && !inv_has(inv, build_triple(rv, 0)));
        assert(0 <= 0 < rv.3.len() && name_installed(inv, build_triple(rv, 0).0));
        assert(0 <= 0 < rv.3.len() && in_interests(ints, build_triple(rv, 0).0));
    }
}

} // verus!
