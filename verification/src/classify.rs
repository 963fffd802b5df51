//! Classification of remote update records against the local package
//! inventory: relevance filtering by author and commenter, the
//! feedback-pending name list and the interesting-pending record list.

use vstd::prelude::*;

use crate::config::RunConfiguration;
use crate::inventory::views;
use crate::parse::{parse_nvr, spec_parse_nvr, Nvr, ParseError};
use crate::strutil::{lemma_lex_transitive, lemma_lex_trichotomy, lex_cmp, lex_lt, str_eq};

verus! {

/// A comment on an update record; only the author identity matters here.
#[derive(Debug)]
pub struct Comment {
    pub author: String,
}

/// One build of an update record, carrying its `name-version-release`
/// reference string.
#[derive(Debug)]
pub struct Build {
    pub nvr: String,
}

/// A remote update record, as the update-tracking service reports it.
#[derive(Debug)]
pub struct UpdateRecord {
    pub alias: String,
    pub author: String,
    pub comments: Option<Vec<Comment>>,
    pub builds: Vec<Build>,
}

/// The mathematical content of an update record: alias, author, the
/// comment authors when the record carries comments, and the build
/// reference strings.
pub type RecView = (Seq<char>, Seq<char>, Option<Seq<Seq<char>>>, Seq<Seq<char>>);

pub open spec fn rec_view(r: UpdateRecord) -> RecView {
    (
        r.alias@,
        r.author@,
        match r.comments {
            Some(cs) => Some(cs@.map_values(|c: Comment| c.author@)),
            None => None,
        },
        r.builds@.map_values(|b: Build| b.nvr@),
    )
}

pub open spec fn view_recs(s: Seq<UpdateRecord>) -> Seq<RecView> {
    s.map_values(|r: UpdateRecord| rec_view(r))
}

/// A record is relevant to a user when the user neither authored it
/// nor commented on it; a record without comments passes the comment
/// check by itself.
pub open spec fn view_relevant(rv: RecView, u: Seq<char>) -> bool {
    &&& rv.1 != u
    &&& !(match rv.2 {
        Some(cs) => exists|i: int| 0 <= i < cs.len() && cs[i] == u,
        None => false,
    })
}

/// The relevant records, in their original order.
pub open spec fn spec_relevant(s: Seq<RecView>, u: Seq<char>) -> Seq<RecView> {
    s.filter(|rv: RecView| view_relevant(rv, u))
}

impl Comment {
    fn duplicate(&self) -> (r: Comment)
        ensures
            r.author@ == self.author@,
    {
        Comment { author: self.author.clone() }
    }
}

impl Build {
    fn duplicate(&self) -> (r: Build)
        ensures
            r.nvr@ == self.nvr@,
    {
        Build { nvr: self.nvr.clone() }
    }
}

impl UpdateRecord {
    /// A copy whose mathematical content is that of the original.
    pub fn duplicate(&self) -> (r: UpdateRecord)
        ensures
            rec_view(r) == rec_view(*self),
    {
        let comments: Option<Vec<Comment>> = match &self.comments {
            None => None,
            Some(cs) => {
                let mut out: Vec<Comment> = Vec::new();
                let mut i: usize = 0;
                while i < cs.len()
                    invariant
                        i <= cs@.len(),
                        out@.len() == i,
                        forall|k: int| 0 <= k < i ==> out@[k].author@ == cs@[k].author@,
                    decreases cs@.len() - i,
                {
                    out.push(cs[i].duplicate());
                    i = i + 1;
                }
                proof {
                    assert(out@.map_values(|c: Comment| c.author@) =~= cs@.map_values(
                        |c: Comment| c.author@,
                    ));
                }
                Some(out)
            },
        };
        let mut builds: Vec<Build> = Vec::new();
        let mut i: usize = 0;
        while i < self.builds.len()
            invariant
                i <= self.builds@.len(),
                builds@.len() == i,
                forall|k: int| 0 <= k < i ==> builds@[k].nvr@ == self.builds@[k].nvr@,
            decreases self.builds@.len() - i,
        {
            builds.push(self.builds[i].duplicate());
            i = i + 1;
        }
        proof {
            assert(builds@.map_values(|b: Build| b.nvr@) =~= self.builds@.map_values(
                |b: Build| b.nvr@,
            ));
        }
        UpdateRecord { alias: self.alias.clone(), author: self.author.clone(), comments, builds }
    }
}

/// Whether some comment of the record was written by the user.
fn user_commented(r: &UpdateRecord, username: &str) -> (b: bool)
    ensures
        b == match rec_view(*r).2 {
            Some(cs) => exists|i: int| 0 <= i < cs.len() && cs[i] == username@,
            None => false,
        },
{
    match &r.comments {
        None => false,
        Some(cs) => {
            let ghost cvs = rec_view(*r).2->Some_0;
            let mut i: usize = 0;
            while i < cs.len()
                invariant
                    i <= cs@.len(),
                    rec_view(*r).2 == Some(cvs),
                    cvs == cs@.map_values(|c: Comment| c.author@),
                    forall|k: int| 0 <= k < i ==> cvs[k] != username@,
                decreases cs@.len() - i,
            {
                if str_eq(cs[i].author.as_str(), username) {
                    proof {
                        assert(cvs[i as int] == cs@[i as int].author@);
                        assert(exists|k: int| 0 <= k < cvs.len() && cvs[k] == username@);
                        assert(rec_view(*r).2->Some_0 == cvs);
                        assert(match rec_view(*r).2 {
                            Some(cs2) => exists|k: int| 0 <= k < cs2.len() && cs2[k] == username@,
                            None => false,
                        });
                    }
                    return true;
                }
                i = i + 1;
            }
            false
        },
    }
}

proof fn lemma_relevant_step(s: Seq<RecView>, u: Seq<char>, i: int)
    requires
        0 <= i < s.len(),
    ensures
        spec_relevant(s.take(i + 1), u) == if view_relevant(s[i], u) {
            spec_relevant(s.take(i), u).push(s[i])
        } else {
            spec_relevant(s.take(i), u)
        },
{
    reveal(Seq::filter);
    assert(s.take(i + 1).drop_last() =~= s.take(i));
    assert(s.take(i + 1).last() == s[i]);
}

/// Drop every record the user authored, and every record the user
/// commented on; the rest keep their order.
pub fn relevant_updates(updates: &Vec<UpdateRecord>, username: &str) -> (r: Vec<UpdateRecord>)
    ensures
        view_recs(r@) == spec_relevant(view_recs(updates@), username@),
{
    let ghost rvs = view_recs(updates@);
    let mut out: Vec<UpdateRecord> = Vec::new();
    let mut i: usize = 0;
    while i < updates.len()
        invariant
            i <= updates@.len(),
            rvs == view_recs(updates@),
            view_recs(out@) == spec_relevant(rvs.take(i as int), username@),
        decreases updates@.len() - i,
    {
        let ghost prev = view_recs(out@);
        proof {
            lemma_relevant_step(rvs, username@, i as int);
            assert(rvs[i as int] == rec_view(updates@[i as int]));
        }
        let rec = &updates[i];
        if !str_eq(rec.author.as_str(), username) && !user_commented(rec, username) {
            let d = rec.duplicate();
            out.push(d);
            proof {
                assert(view_relevant(rvs[i as int], username@));
                assert(view_recs(out@) =~= prev.push(rec_view(d)));
            }
        } else {
            proof {
                assert(!view_relevant(rvs[i as int], username@));
            }
        }
        i = i + 1;
    }
    proof {
        assert(rvs.take(updates@.len() as int) =~= rvs);
    }
    out
}

/// Every build reference string of the record is well formed.
pub open spec fn builds_parse(rv: RecView) -> bool {
    forall|j: int| 0 <= j < rv.3.len() ==> spec_parse_nvr(rv.3[j]) is Some
}

pub open spec fn all_builds_parse(rs: Seq<RecView>) -> bool {
    forall|k: int| 0 <= k < rs.len() ==> builds_parse(rs[k])
}

/// The parsed (name, version, release) triple of the record's `j`-th build.
pub open spec fn build_triple(rv: RecView, j: int) -> (Seq<char>, Seq<char>, Seq<char>) {
    spec_parse_nvr(rv.3[j])->Some_0
}

/// The inventory holds an identifier with this exact triple.
pub open spec fn inv_has(inv: Seq<Nvr>, t: (Seq<char>, Seq<char>, Seq<char>)) -> bool {
    exists|i: int| 0 <= i < inv.len() && inv[i].key() == t
}

/// The inventory holds some identifier of this name, whatever its
/// version and release.
pub open spec fn name_installed(inv: Seq<Nvr>, n: Seq<char>) -> bool {
    exists|i: int| 0 <= i < inv.len() && inv[i].name@ == n
}

pub open spec fn in_interests(ints: Seq<Seq<char>>, n: Seq<char>) -> bool {
    exists|i: int| 0 <= i < ints.len() && ints[i] == n
}

/// Some build of the record is installed exactly, triple for triple.
pub open spec fn rec_matches_inventory(rv: RecView, inv: Seq<Nvr>) -> bool {
    exists|j: int| 0 <= j < rv.3.len() && inv_has(inv, build_triple(rv, j))
}

pub open spec fn rec_has_name(rv: RecView, n: Seq<char>) -> bool {
    exists|j: int| 0 <= j < rv.3.len() && build_triple(rv, j).0 == n
}

/// A name owed feedback: some relevant record has a build installed
/// exactly, and the name belongs to one of that record's builds.
pub open spec fn feedback_name(n: Seq<char>, rel: Seq<RecView>, inv: Seq<Nvr>) -> bool {
    exists|k: int|
        0 <= k < rel.len() && rec_matches_inventory(rel[k], inv) && rec_has_name(rel[k], n)
}

/// The input is the first build reference that fails to parse, in
/// record order and build order.
pub open spec fn first_parse_failure(input: Seq<char>, rel: Seq<RecView>) -> bool {
    exists|k: int, j: int|
        {
            &&& 0 <= k < rel.len()
            &&& 0 <= j < rel[k].3.len()
            &&& rel[k].3[j] == input
            &&& spec_parse_nvr(rel[k].3[j]) is None
            &&& forall|k2: int| 0 <= k2 < k ==> builds_parse(rel[k2])
            &&& forall|j2: int| 0 <= j2 < j ==> spec_parse_nvr(rel[k].3[j2]) is Some
        }
}

spec fn feedback_name_upto(n: Seq<char>, rel: Seq<RecView>, inv: Seq<Nvr>, upto: int) -> bool {
    exists|k: int| 0 <= k < upto && rec_matches_inventory(rel[k], inv) && rec_has_name(rel[k], n)
}

/// A record is interesting-pending when some build is not installed
/// exactly, some build's name is installed, and some build's name is
/// watched; the three witnesses may be different builds.
pub open spec fn rec_qualifies(rv: RecView, inv: Seq<Nvr>, ints: Seq<Seq<char>>) -> bool {
    &&& exists|j: int| 0 <= j < rv.3.len() && !inv_has(inv, build_triple(rv, j))
    &&& exists|j: int| 0 <= j < rv.3.len() && name_installed(inv, build_triple(rv, j).0)
    &&& exists|j: int| 0 <= j < rv.3.len() && in_interests(ints, build_triple(rv, j).0)
}

/// Some relevant record with this alias qualifies as interesting-pending.
pub open spec fn qualifying_alias(
    a: Seq<char>,
    rel: Seq<RecView>,
    inv: Seq<Nvr>,
    ints: Seq<Seq<char>>,
) -> bool {
    exists|k: int| 0 <= k < rel.len() && rel[k].0 == a && rec_qualifies(rel[k], inv, ints)
}

spec fn qualifying_alias_upto(
    a: Seq<char>,
    rel: Seq<RecView>,
    inv: Seq<Nvr>,
    ints: Seq<Seq<char>>,
    upto: int,
) -> bool {
    exists|k: int| 0 <= k < upto && rel[k].0 == a && rec_qualifies(rel[k], inv, ints)
}

/// The record is a copy of one of the first `upto` relevant records;
/// that record qualifies, and no earlier record with the same alias
/// does: the first record seen for an alias is the one kept.
pub open spec fn from_qualifying_upto(
    r: UpdateRecord,
    rel: Seq<RecView>,
    inv: Seq<Nvr>,
    ints: Seq<Seq<char>>,
    upto: int,
) -> bool {
    exists|k: int|
        0 <= k < upto && rec_view(r) == rel[k] && rec_qualifies(rel[k], inv, ints) && (forall|
            k2: int,
        |
            0 <= k2 < k ==> !(rel[k2].0 == rel[k].0 && rec_qualifies(rel[k2], inv, ints)))
}

proof fn lemma_qualifying_widen(
    r: UpdateRecord,
    rel: Seq<RecView>,
    inv: Seq<Nvr>,
    ints: Seq<Seq<char>>,
    a: int,
    b: int,
)
    requires
        a <= b,
        from_qualifying_upto(r, rel, inv, ints, a),
    ensures
        from_qualifying_upto(r, rel, inv, ints, b),
{
    let w = choose|w: int|
        0 <= w < a && rec_view(r) == rel[w] && rec_qualifies(rel[w], inv, ints) && (forall|
            k2: int,
        |
            0 <= k2 < w ==> !(rel[k2].0 == rel[w].0 && rec_qualifies(rel[k2], inv, ints)));
    assert(0 <= w < b && rec_view(r) == rel[w] && rec_qualifies(rel[w], inv, ints) && (forall|
        k2: int,
    |
        0 <= k2 < w ==> !(rel[k2].0 == rel[w].0 && rec_qualifies(rel[k2], inv, ints))));
}

/// Every listed record is a copy of the first qualifying relevant
/// record that carries its alias.
pub open spec fn interesting_from(
    out: Seq<UpdateRecord>,
    rel: Seq<RecView>,
    inv: Seq<Nvr>,
    ints: Seq<Seq<char>>,
) -> bool {
    forall|m: int|
        0 <= m < out.len() ==> #[trigger] from_qualifying_upto(
            out[m],
            rel,
            inv,
            ints,
            rel.len() as int,
        )
}

/// Strictly ascending lexicographic order: sorted and duplicate-free.
pub open spec fn strictly_sorted(s: Seq<Seq<char>>) -> bool {
    forall|i: int, j: int| 0 <= i < j < s.len() ==> lex_lt(s[i], s[j])
}

pub open spec fn has_view(s: Seq<String>, y: Seq<char>) -> bool {
    exists|i: int| 0 <= i < s.len() && s[i]@ == y
}

/// Strictly ascending aliases: sorted and deduplicated by alias.
pub open spec fn sorted_by_alias(s: Seq<UpdateRecord>) -> bool {
    forall|i: int, j: int| 0 <= i < j < s.len() ==> lex_lt(s[i].alias@, s[j].alias@)
}

pub open spec fn has_alias(s: Seq<UpdateRecord>, a: Seq<char>) -> bool {
    exists|i: int| 0 <= i < s.len() && s[i].alias@ == a
}

/// Whether the inventory holds exactly this identifier triple.
fn inv_contains(inv: &Vec<Nvr>, t: &Nvr) -> (r: bool)
    ensures
        r == inv_has(inv@, t.key()),
{
    let mut i: usize = 0;
    while i < inv.len()
        invariant
            i <= inv@.len(),
            forall|k: int| 0 <= k < i ==> inv@[k].key() != t.key(),
        decreases inv@.len() - i,
    {
        if str_eq(inv[i].name.as_str(), t.name.as_str()) && str_eq(
            inv[i].version.as_str(),
            t.version.as_str(),
        ) && str_eq(inv[i].release.as_str(), t.release.as_str()) {
            proof {
                assert(inv@[i as int].key() == t.key());
            }
            return true;
        }
        i = i + 1;
    }
    false
}

/// Whether the inventory holds some identifier of this name.
fn name_in_inventory(inv: &Vec<Nvr>, n: &str) -> (r: bool)
    ensures
        r == name_installed(inv@, n@),
{
    let mut i: usize = 0;
    while i < inv.len()
        invariant
            i <= inv@.len(),
            forall|k: int| 0 <= k < i ==> inv@[k].name@ != n@,
        decreases inv@.len() - i,
    {
        if str_eq(inv[i].name.as_str(), n) {
            return true;
        }
        i = i + 1;
    }
    false
}

/// Whether the list holds this name.
fn name_in_list(ints: &Vec<String>, n: &str) -> (r: bool)
    ensures
        r == in_interests(views(ints@), n@),
{
    let mut i: usize = 0;
    while i < ints.len()
        invariant
            i <= ints@.len(),
            forall|k: int| 0 <= k < i ==> views(ints@)[k] != n@,
        decreases ints@.len() - i,
    {
        proof {
            assert(views(ints@)[i as int] == ints@[i as int]@);
        }
        if str_eq(ints[i].as_str(), n) {
            return true;
        }
        i = i + 1;
    }
    false
}

/// Insert a name into a strictly sorted list, keeping it sorted and
/// duplicate-free.
fn insert_name(v: &mut Vec<String>, x: String)
    requires
        strictly_sorted(views(old(v)@)),
    ensures
        strictly_sorted(views(final(v)@)),
        forall|y: Seq<char>| has_view(final(v)@, y) <==> has_view(old(v)@, y) || y == x@,
{
    let mut i: usize = 0;
    loop
        invariant
            v@ == old(v)@,
            i <= v@.len(),
            forall|k: int| 0 <= k < i ==> lex_lt(v@[k]@, x@),
        ensures
            v@ == old(v)@,
            i <= v@.len(),
            forall|k: int| 0 <= k < i ==> lex_lt(v@[k]@, x@),
            i < v@.len() ==> !lex_lt(v@[i as int]@, x@),
        decreases v@.len() - i,
    {
        if i >= v.len() {
            break;
        }
        if lex_cmp(v[i].as_str(), x.as_str()) >= 0 {
            break;
        }
        i = i + 1;
    }
    if i < v.len() {
        if str_eq(v[i].as_str(), x.as_str()) {
            proof {
                assert(v@[i as int]@ == x@);
                assert(has_view(old(v)@, x@));
            }
            return;
        }
    }
    proof {
        if (i as int) < old(v)@.len() {
            lemma_lex_trichotomy(old(v)@[i as int]@, x@);
            assert(lex_lt(x@, old(v)@[i as int]@));
        }
    }
    let ghost olds = v@;
    v.insert(i, x);
    proof {
        olds.insert_ensures(i as int, x);
        let news = v@;
        assert(news == olds.insert(i as int, x));
        assert(news[i as int] == x);
        assert forall|p: int, q: int| 0 <= p < q < news.len() implies lex_lt(
            news[p]@,
            news[q]@,
        ) by {
            if q < i {
                assert(news[p] == olds[p] && news[q] == olds[q]);
                assert(views(olds)[p] == olds[p]@ && views(olds)[q] == olds[q]@);
            } else if p > i {
                assert(news[p] == olds[p - 1] && news[q] == olds[q - 1]);
                assert(views(olds)[p - 1] == olds[p - 1]@ && views(olds)[q - 1] == olds[q - 1]@);
            } else if q == i {
                assert(news[p] == olds[p]);
                assert(lex_lt(olds[p]@, x@));
            } else if p == i {
                // news[q] == olds[q - 1], an element at or after position i
                assert(news[q] == olds[q - 1]);
                if q - 1 > i {
                    assert(views(olds)[i as int] == olds[i as int]@);
                    assert(views(olds)[q - 1] == olds[q - 1]@);
                    assert(lex_lt(olds[i as int]@, olds[q - 1]@));
                    lemma_lex_transitive(x@, olds[i as int]@, olds[q - 1]@);
                } else {
                    assert(lex_lt(x@, olds[q - 1]@));
                }
            } else {
                // p < i < q
                assert(news[p] == olds[p] && news[q] == olds[q - 1]);
                if q - 1 == p {
                    assert(false);
                } else {
                    assert(views(olds)[p] == olds[p]@ && views(olds)[q - 1] == olds[q - 1]@);
                    assert(lex_lt(olds[p]@, olds[q - 1]@));
                }
            }
        }
        assert forall|pp: int, qq: int| 0 <= pp < qq < views(news).len() implies lex_lt(
            views(news)[pp],
            views(news)[qq],
        ) by {
            assert(views(news)[pp] == news[pp]@ && views(news)[qq] == news[qq]@);
        }
        assert forall|y: Seq<char>|
            has_view(news, y) <==> has_view(olds, y) || y == x@ by {
            if has_view(news, y) {
                let w = choose|w: int| 0 <= w < news.len() && news[w]@ == y;
                if w < i {
                    assert(olds[w]@ == y);
                } else if w > i {
                    assert(olds[w - 1]@ == y);
                }
            }
            if has_view(olds, y) {
                let w = choose|w: int| 0 <= w < olds.len() && olds[w]@ == y;
                if w < i {
                    assert(news[w]@ == y);
                } else {
                    assert(news[w + 1]@ == y);
                }
            }
            if y == x@ {
                assert(news[i as int]@ == y);
            }
        }
    }
}

/// Insert a record into a list strictly sorted by alias; a record
/// whose alias is already present is dropped, so the first record
/// seen for an alias is the one kept.
fn insert_record(v: &mut Vec<UpdateRecord>, rec: UpdateRecord)
    requires
        sorted_by_alias(old(v)@),
    ensures
        sorted_by_alias(final(v)@),
        if has_alias(old(v)@, rec.alias@) {
            final(v)@ == old(v)@
        } else {
            exists|p: int|
                0 <= p <= old(v)@.len() && final(v)@ == old(v)@.insert(p, rec)
        },
{
    let mut i: usize = 0;
    loop
        invariant
            v@ == old(v)@,
            i <= v@.len(),
            forall|k: int| 0 <= k < i ==> lex_lt(v@[k].alias@, rec.alias@),
        ensures
            v@ == old(v)@,
            i <= v@.len(),
            forall|k: int| 0 <= k < i ==> lex_lt(v@[k].alias@, rec.alias@),
            i < v@.len() ==> !lex_lt(v@[i as int].alias@, rec.alias@),
        decreases v@.len() - i,
    {
        if i >= v.len() {
            break;
        }
        if lex_cmp(v[i].alias.as_str(), rec.alias.as_str()) >= 0 {
            break;
        }
        i = i + 1;
    }
    if i < v.len() {
        if str_eq(v[i].alias.as_str(), rec.alias.as_str()) {
            proof {
                assert(v@[i as int].alias@ == rec.alias@);
                assert(has_alias(old(v)@, rec.alias@));
            }
            return;
        }
    }
    proof {
        if (i as int) < old(v)@.len() {
            lemma_lex_trichotomy(old(v)@[i as int].alias@, rec.alias@);
            assert(lex_lt(rec.alias@, old(v)@[i as int].alias@));
        }
        // the alias is nowhere: before i the aliases are smaller, from i on larger
        assert forall|k: int| 0 <= k < old(v)@.len() implies old(v)@[k].alias@ != rec.alias@ by {
            if k < i {
                lemma_lex_trichotomy(old(v)@[k].alias@, rec.alias@);
            } else if k > i {
                assert(lex_lt(old(v)@[i as int].alias@, old(v)@[k].alias@));
                lemma_lex_transitive(rec.alias@, old(v)@[i as int].alias@, old(v)@[k].alias@);
                lemma_lex_trichotomy(old(v)@[k].alias@, rec.alias@);
            } else {
                lemma_lex_trichotomy(old(v)@[k].alias@, rec.alias@);
            }
        }
    }
    let ghost olds = v@;
    let ghost a = rec.alias@;
    v.insert(i, rec);
    proof {
        olds.insert_ensures(i as int, v@[i as int]);
        let news = v@;
        assert forall|p: int, q: int| 0 <= p < q < news.len() implies lex_lt(
            news[p].alias@,
            news[q].alias@,
        ) by {
            if q < i {
                assert(news[p] == olds[p] && news[q] == olds[q]);
            } else if p > i {
                assert(news[p] == olds[p - 1] && news[q] == olds[q - 1]);
            } else if q == i {
                assert(news[p] == olds[p]);
            } else if p == i {
                assert(news[q] == olds[q - 1]);
                if q - 1 > i {
                    assert(lex_lt(olds[i as int].alias@, olds[q - 1].alias@));
                    lemma_lex_transitive(a, olds[i as int].alias@, olds[q - 1].alias@);
                }
            } else {
                assert(news[p] == olds[p] && news[q] == olds[q - 1]);
                assert(lex_lt(olds[p].alias@, olds[q - 1].alias@));
            }
        }
        assert(news == olds.insert(i as int, rec));
    }
}

/// The two classifier outputs: feedback-pending package names, sorted
/// and deduplicated, and interesting-pending records, sorted and
/// deduplicated by alias.
#[derive(Debug)]
pub struct ClassificationResult {
    pub feedback_pending: Vec<String>,
    pub interesting_pending: Vec<UpdateRecord>,
}

/// The parsed build triples line up with the records.
spec fn parsed_match(parsed: Seq<Vec<Nvr>>, rvs: Seq<RecView>) -> bool {
    &&& parsed.len() == rvs.len()
    &&& forall|k: int| 0 <= k < rvs.len() ==> builds_parse(rvs[k])
    &&& forall|k: int| 0 <= k < rvs.len() ==> parsed[k]@.len() == rvs[k].3.len()
    &&& forall|k: int, j: int|
        0 <= k < rvs.len() && 0 <= j < rvs[k].3.len() ==> parsed[k]@[j].key() == build_triple(
            rvs[k],
            j,
        )
}

proof fn lemma_feedback_fold(n: Seq<char>, rvs: Seq<RecView>, inv: Seq<Nvr>, k: int)
    requires
        0 <= k < rvs.len(),
    ensures
        feedback_name_upto(n, rvs, inv, k + 1) == (feedback_name_upto(n, rvs, inv, k) || (
        rec_matches_inventory(rvs[k], inv) && rec_has_name(rvs[k], n))),
{
    if feedback_name_upto(n, rvs, inv, k + 1) {
        let w = choose|w: int|
            0 <= w < k + 1 && rec_matches_inventory(rvs[w], inv) && rec_has_name(rvs[w], n);
        if w < k {
            assert(feedback_name_upto(n, rvs, inv, k));
        }
    }
    if feedback_name_upto(n, rvs, inv, k) {
        let w = choose|w: int|
            0 <= w < k && rec_matches_inventory(rvs[w], inv) && rec_has_name(rvs[w], n);
        assert(0 <= w < k + 1 && rec_matches_inventory(rvs[w], inv) && rec_has_name(rvs[w], n));
    }
    if rec_matches_inventory(rvs[k], inv) && rec_has_name(rvs[k], n) {
        assert(0 <= k < k + 1 && rec_matches_inventory(rvs[k], inv) && rec_has_name(rvs[k], n));
    }
}

proof fn lemma_alias_fold(a: Seq<char>, rvs: Seq<RecView>, inv: Seq<Nvr>, ints: Seq<Seq<char>>, k: int)
    requires
        0 <= k < rvs.len(),
    ensures
        qualifying_alias_upto(a, rvs, inv, ints, k + 1) == (qualifying_alias_upto(
            a,
            rvs,
            inv,
            ints,
            k,
        ) || (rvs[k].0 == a && rec_qualifies(rvs[k], inv, ints))),
{
    if qualifying_alias_upto(a, rvs, inv, ints, k + 1) {
        let w = choose|w: int| 0 <= w < k + 1 && rvs[w].0 == a && rec_qualifies(rvs[w], inv, ints);
        if w < k {
            assert(qualifying_alias_upto(a, rvs, inv, ints, k));
        }
    }
    if qualifying_alias_upto(a, rvs, inv, ints, k) {
        let w = choose|w: int| 0 <= w < k && rvs[w].0 == a && rec_qualifies(rvs[w], inv, ints);
        assert(0 <= w < k + 1 && rvs[w].0 == a && rec_qualifies(rvs[w], inv, ints));
    }
    if rvs[k].0 == a && rec_qualifies(rvs[k], inv, ints) {
        assert(0 <= k < k + 1 && rvs[k].0 == a && rec_qualifies(rvs[k], inv, ints));
    }
}

/// Classify the relevant update records against the local inventory
/// and the watched names. Succeeds exactly when every build reference
/// of every record parses; the first malformed reference aborts the
/// classification with its parse error.
pub fn classify(inventory: &Vec<Nvr>, relevant: &Vec<UpdateRecord>, interests: &Vec<String>) -> (r:
    Result<ClassificationResult, ParseError>)
    ensures
        match r {
            Ok(res) => {
                &&& all_builds_parse(view_recs(relevant@))
                &&& strictly_sorted(views(res.feedback_pending@))
                &&& forall|n: Seq<char>|
                    has_view(res.feedback_pending@, n) <==> feedback_name(
                        n,
                        view_recs(relevant@),
                        inventory@,
                    )
                &&& sorted_by_alias(res.interesting_pending@)
                &&& interesting_from(
                    res.interesting_pending@,
                    view_recs(relevant@),
                    inventory@,
                    views(interests@),
                )
                &&& forall|a: Seq<char>|
                    has_alias(res.interesting_pending@, a) <==> qualifying_alias(
                        a,
                        view_recs(relevant@),
                        inventory@,
                        views(interests@),
                    )
            },
            Err(e) => {
                &&& !all_builds_parse(view_recs(relevant@))
                &&& spec_parse_nvr(e.input@) is None
                &&& first_parse_failure(e.input@, view_recs(relevant@))
            },
        },
{
    let ghost rvs = view_recs(relevant@);
    let ghost ints = views(interests@);
    // parse every build reference up front
    let mut parsed: Vec<Vec<Nvr>> = Vec::new();
    let mut k: usize = 0;
    while k < relevant.len()
        invariant
            k <= relevant@.len(),
            rvs == view_recs(relevant@),
            parsed@.len() == k,
            forall|k2: int| 0 <= k2 < k ==> builds_parse(rvs[k2]),
            forall|k2: int| 0 <= k2 < k ==> parsed@[k2]@.len() == rvs[k2].3.len(),
            forall|k2: int, j: int|
                0 <= k2 < k && 0 <= j < rvs[k2].3.len() ==> parsed@[k2]@[j].key() == build_triple(
                    rvs[k2],
                    j,
                ),
        decreases relevant@.len() - k,
    {
        let rec = &relevant[k];
        let ghost rv = rvs[k as int];
        proof {
            assert(rv == rec_view(relevant@[k as int]));
        }
        let mut ts: Vec<Nvr> = Vec::new();
        let mut j: usize = 0;
        while j < rec.builds.len()
            invariant
                j <= rec.builds@.len(),
                rvs == view_recs(relevant@),
                k < relevant@.len(),
                rv == rvs[k as int],
                rv.3 == rec.builds@.map_values(|b: Build| b.nvr@),
                forall|k2: int| 0 <= k2 < k ==> builds_parse(rvs[k2]),
                ts@.len() == j,
                forall|j2: int| 0 <= j2 < j ==> spec_parse_nvr(rv.3[j2]) is Some,
                forall|j2: int| 0 <= j2 < j ==> ts@[j2].key() == build_triple(rv, j2),
            decreases rec.builds@.len() - j,
        {
            proof {
                assert(rv.3[j as int] == rec.builds@[j as int].nvr@);
            }
            match parse_nvr(rec.builds[j].nvr.as_str()) {
                Err(e) => {
                    proof {
                        assert(spec_parse_nvr(rvs[k as int].3[j as int]) is None);
                        assert(!builds_parse(rvs[k as int]));
                        assert(!all_builds_parse(rvs));
                        assert({
                            &&& 0 <= (k as int) && (k as int) < rvs.len()
                            &&& 0 <= (j as int) && (j as int) < rvs[k as int].3.len()
                            &&& rvs[k as int].3[j as int] == e.input@
                            &&& spec_parse_nvr(rvs[k as int].3[j as int]) is None
                            &&& forall|k2: int| 0 <= k2 < k as int ==> builds_parse(rvs[k2])
                            &&& forall|j2: int|
                                0 <= j2 < j as int ==> spec_parse_nvr(rvs[k as int].3[j2]) is Some
                        });
                        assert(first_parse_failure(e.input@, rvs));
                    }
                    return Err(e);
                },
                Ok(nvr) => {
                    ts.push(nvr);
                },
            }
            j = j + 1;
        }
        parsed.push(ts);
        k = k + 1;
    }
    proof {
        assert(parsed_match(parsed@, rvs));
    }
    // feedback-pending: names of records with an exactly installed build
    let mut feedback: Vec<String> = Vec::new();
    let mut k: usize = 0;
    while k < relevant.len()
        invariant
            k <= relevant@.len(),
            rvs == view_recs(relevant@),
            parsed_match(parsed@, rvs),
            strictly_sorted(views(feedback@)),
            forall|n: Seq<char>|
                has_view(feedback@, n) <==> feedback_name_upto(n, rvs, inventory@, k as int),
        decreases relevant@.len() - k,
    {
        let ghost rv = rvs[k as int];
        let builds_k = &parsed[k];
        let mut matched = false;
        let mut j: usize = 0;
        while j < builds_k.len()
            invariant
                j <= builds_k@.len(),
                builds_k@.len() == rv.3.len(),
                forall|j2: int|
                    0 <= j2 < rv.3.len() ==> builds_k@[j2].key() == build_triple(rv, j2),
                matched == exists|j2: int|
                    0 <= j2 < j && inv_has(inventory@, build_triple(rv, j2)),
            decreases builds_k@.len() - j,
        {
            if inv_contains(inventory, &builds_k[j]) {
                proof {
                    assert(inv_has(inventory@, build_triple(rv, j as int)));
                }
                matched = true;
            }
            j = j + 1;
        }
        proof {
            assert(matched == rec_matches_inventory(rv, inventory@));
        }
        if matched {
            let mut j: usize = 0;
            while j < builds_k.len()
                invariant
                    j <= builds_k@.len(),
                    builds_k@.len() == rv.3.len(),
                    forall|j2: int|
                        0 <= j2 < rv.3.len() ==> builds_k@[j2].key() == build_triple(rv, j2),
                    strictly_sorted(views(feedback@)),
                    forall|n: Seq<char>|
                        has_view(feedback@, n) <==> feedback_name_upto(n, rvs, inventory@, k as int)
                            || (exists|j2: int| 0 <= j2 < j && build_triple(rv, j2).0 == n),
                decreases builds_k@.len() - j,
            {
                let nm = builds_k[j].name.clone();
                proof {
                    assert(nm@ == build_triple(rv, j as int).0);
                }
                insert_name(&mut feedback, nm);
                proof {
                    assert forall|n: Seq<char>|
                        has_view(feedback@, n) <==> feedback_name_upto(n, rvs, inventory@, k as int)
                            || (exists|j2: int|
                            0 <= j2 < j + 1 && build_triple(rv, j2).0 == n) by {
                        if exists|j2: int| 0 <= j2 < j + 1 && build_triple(rv, j2).0 == n {
                            let w = choose|w: int| 0 <= w < j + 1 && build_triple(rv, w).0 == n;
                            if w < j {
                                assert(exists|j2: int|
                                    0 <= j2 < j && build_triple(rv, j2).0 == n);
                            }
                        }
                        if exists|j2: int| 0 <= j2 < j && build_triple(rv, j2).0 == n {
                            let w = choose|w: int| 0 <= w < j && build_triple(rv, w).0 == n;
                            assert(0 <= w < j + 1 && build_triple(rv, w).0 == n);
                        }
                    }
                }
                j = j + 1;
            }
            proof {
                assert forall|n: Seq<char>|
                    has_view(feedback@, n) <==> feedback_name_upto(
                        n,
                        rvs,
                        inventory@,
                        k as int + 1,
                    ) by {
                    lemma_feedback_fold(n, rvs, inventory@, k as int);
                    assert((exists|j2: int| 0 <= j2 < rv.3.len() && build_triple(rv, j2).0 == n)
                        == rec_has_name(rv, n));
                }
            }
        } else {
            proof {
                assert forall|n: Seq<char>|
                    has_view(feedback@, n) <==> feedback_name_upto(
                        n,
                        rvs,
                        inventory@,
                        k as int + 1,
                    ) by {
                    lemma_feedback_fold(n, rvs, inventory@, k as int);
                }
            }
        }
        k = k + 1;
    }
    proof {
        assert forall|n: Seq<char>|
            has_view(feedback@, n) <==> feedback_name(n, rvs, inventory@) by {
            assert(feedback_name_upto(n, rvs, inventory@, rvs.len() as int) == feedback_name(
                n,
                rvs,
                inventory@,
            ));
        }
    }
    // interesting-pending: watched, installed by name, not installed exactly
    let mut pending: Vec<UpdateRecord> = Vec::new();
    let mut k: usize = 0;
    while k < relevant.len()
        invariant
            k <= relevant@.len(),
            rvs == view_recs(relevant@),
            ints == views(interests@),
            parsed_match(parsed@, rvs),
            sorted_by_alias(pending@),
            forall|a: Seq<char>|
                has_alias(pending@, a) <==> qualifying_alias_upto(
                    a,
                    rvs,
                    inventory@,
                    ints,
                    k as int,
                ),
            forall|m: int|
                0 <= m < pending@.len() ==> #[trigger] from_qualifying_upto(
                    pending@[m],
                    rvs,
                    inventory@,
                    ints,
                    k as int,
                ),
        decreases relevant@.len() - k,
    {
        let ghost rv = rvs[k as int];
        let builds_k = &parsed[k];
        let mut has_uninstalled = false;
        let mut is_installed = false;
        let mut is_interesting = false;
        let mut j: usize = 0;
        while j < builds_k.len()
            invariant
                j <= builds_k@.len(),
                ints == views(interests@),
                builds_k@.len() == rv.3.len(),
                forall|j2: int|
                    0 <= j2 < rv.3.len() ==> builds_k@[j2].key() == build_triple(rv, j2),
                has_uninstalled == exists|j2: int|
                    0 <= j2 < j && !inv_has(inventory@, build_triple(rv, j2)),
                is_installed == exists|j2: int|
                    0 <= j2 < j && name_installed(inventory@, build_triple(rv, j2).0),
                is_interesting == exists|j2: int|
                    0 <= j2 < j && in_interests(ints, build_triple(rv, j2).0),
            decreases builds_k@.len() - j,
        {
            proof {
                assert(builds_k@[j as int].key() == build_triple(rv, j as int));
                assert(builds_k@[j as int].name@ == build_triple(rv, j as int).0);
            }
            if !inv_contains(inventory, &builds_k[j]) {
                proof {
                    assert(!inv_has(inventory@, build_triple(rv, j as int)));
                }
                has_uninstalled = true;
            }
            if name_in_inventory(inventory, builds_k[j].name.as_str()) {
                proof {
                    assert(name_installed(inventory@, build_triple(rv, j as int).0));
                }
                is_installed = true;
            }
            if name_in_list(interests, builds_k[j].name.as_str()) {
                proof {
                    assert(in_interests(ints, build_triple(rv, j as int).0));
                }
                is_interesting = true;
            }
            j = j + 1;
        }
        let ghost prev = pending@;
        proof {
            assert(forall|a: Seq<char>|
                has_alias(prev, a) <==> qualifying_alias_upto(a, rvs, inventory@, ints, k as int));
        }
        if has_uninstalled && is_installed && is_interesting {
            proof {
                assert(rec_qualifies(rv, inventory@, ints));
            }
            let d = relevant[k].duplicate();
            proof {
                assert(rec_view(d) == rvs[k as int]);
                assert(d.alias@ == rv.0);
            }
            insert_record(&mut pending, d);
            proof {
                if has_alias(prev, rv.0) {
                    assert(pending@ == prev);
                    assert forall|m: int|
                        0 <= m < pending@.len() implies #[trigger] from_qualifying_upto(
                        pending@[m],
                        rvs,
                        inventory@,
                        ints,
                        k as int + 1,
                    ) by {
                        assert(from_qualifying_upto(prev[m], rvs, inventory@, ints, k as int));
                        lemma_qualifying_widen(prev[m], rvs, inventory@, ints, k as int, k as int + 1);
                    }
                    assert forall|a: Seq<char>|
                        has_alias(pending@, a) <==> qualifying_alias_upto(
                            a,
                            rvs,
                            inventory@,
                            ints,
                            k as int + 1,
                        ) by {
                        lemma_alias_fold(a, rvs, inventory@, ints, k as int);
                    }
                } else {
                    let p = choose|p: int|
                        0 <= p <= prev.len() && pending@ == prev.insert(p, d);
                    prev.insert_ensures(p, d);
                    assert forall|a: Seq<char>|
                        has_alias(pending@, a) <==> qualifying_alias_upto(
                            a,
                            rvs,
                            inventory@,
                            ints,
                            k as int + 1,
                        ) by {
                        lemma_alias_fold(a, rvs, inventory@, ints, k as int);
                        if has_alias(pending@, a) {
                            let w = choose|w: int|
                                0 <= w < pending@.len() && pending@[w].alias@ == a;
                            if w < p {
                                assert(prev[w].alias@ == a);
                                assert(has_alias(prev, a));
                            } else if w > p {
                                assert(prev[w - 1].alias@ == a);
                                assert(has_alias(prev, a));
                            } else {
                                assert(a == rv.0);
                            }
                        }
                        if qualifying_alias_upto(a, rvs, inventory@, ints, k as int) {
                            assert(has_alias(prev, a));
                            let w = choose|w: int|
                                0 <= w < prev.len() && prev[w].alias@ == a;
                            if w < p {
                                assert(pending@[w].alias@ == a);
                            } else {
                                assert(pending@[w + 1].alias@ == a);
                            }
                        }
                        if a == rv.0 {
                            assert(pending@[p].alias@ == a);
                        }
                    }
                    assert forall|m: int|
                        0 <= m < pending@.len() implies #[trigger] from_qualifying_upto(
                        pending@[m],
                        rvs,
                        inventory@,
                        ints,
                        k as int + 1,
                    ) by {
                        if m < p {
                            assert(pending@[m] == prev[m]);
                            assert(from_qualifying_upto(prev[m], rvs, inventory@, ints, k as int));
                            lemma_qualifying_widen(
                                prev[m],
                                rvs,
                                inventory@,
                                ints,
                                k as int,
                                k as int + 1,
                            );
                        } else if m > p {
                            assert(pending@[m] == prev[m - 1]);
                            assert(from_qualifying_upto(
                                prev[m - 1],
                                rvs,
                                inventory@,
                                ints,
                                k as int,
                            ));
                            lemma_qualifying_widen(
                                prev[m - 1],
                                rvs,
                                inventory@,
                                ints,
                                k as int,
                                k as int + 1,
                            );
                        } else {
                            assert(pending@[m] == d);
                            assert forall|k2: int| 0 <= k2 < k as int implies !(rvs[k2].0
                                == rvs[k as int].0 && rec_qualifies(rvs[k2], inventory@, ints)) by {
                                if rvs[k2].0 == rvs[k as int].0 && rec_qualifies(
                                    rvs[k2],
                                    inventory@,
                                    ints,
                                ) {
                                    assert(qualifying_alias_upto(
                                        rv.0,
                                        rvs,
                                        inventory@,
                                        ints,
                                        k as int,
                                    ));
                                    assert(has_alias(prev, rv.0));
                                }
                            }
                            assert(0 <= (k as int) && (k as int) < k as int + 1 && rec_view(d)
                                == rvs[k as int] && rec_qualifies(rvs[k as int], inventory@, ints)
                                && (forall|k2: int|
                                0 <= k2 < k as int ==> !(rvs[k2].0 == rvs[k as int].0
                                    && rec_qualifies(rvs[k2], inventory@, ints))));
                        }
                    }
                }
            }
        } else {
            proof {
                assert(!rec_qualifies(rv, inventory@, ints));
                assert forall|m: int|
                    0 <= m < pending@.len() implies #[trigger] from_qualifying_upto(
                    pending@[m],
                    rvs,
                    inventory@,
                    ints,
                    k as int + 1,
                ) by {
                    assert(from_qualifying_upto(prev[m], rvs, inventory@, ints, k as int));
                    lemma_qualifying_widen(prev[m], rvs, inventory@, ints, k as int, k as int + 1);
                }
                assert forall|a: Seq<char>|
                    has_alias(pending@, a) <==> qualifying_alias_upto(
                        a,
                        rvs,
                        inventory@,
                        ints,
                        k as int + 1,
                    ) by {
                    lemma_alias_fold(a, rvs, inventory@, ints, k as int);
                }
            }
        }
        k = k + 1;
    }
    proof {
        assert forall|a: Seq<char>|
            has_alias(pending@, a) <==> qualifying_alias(a, rvs, inventory@, ints) by {
            assert(qualifying_alias_upto(a, rvs, inventory@, ints, rvs.len() as int)
                == qualifying_alias(a, rvs, inventory@, ints));
        }
    }
    proof {
        assert(rvs.len() == relevant@.len());
        assert forall|m: int|
            0 <= m < pending@.len() implies #[trigger] from_qualifying_upto(
            pending@[m],
            rvs,
            inventory@,
            ints,
            rvs.len() as int,
        ) by {
            assert(from_qualifying_upto(pending@[m], rvs, inventory@, ints, k as int));
        }
        assert(interesting_from(pending@, rvs, inventory@, ints));
    }
    Ok(ClassificationResult { feedback_pending: feedback, interesting_pending: pending })
}

/// Run the whole classification: filter the raw update records by the
/// configured user, then classify what is left against the inventory
/// and the configured interests.
pub fn run_classification(
    inventory: &Vec<Nvr>,
    updates: &Vec<UpdateRecord>,
    config: &RunConfiguration,
) -> (r: Result<ClassificationResult, ParseError>)
    ensures
        match r {
            Ok(res) => {
                &&& all_builds_parse(spec_relevant(view_recs(updates@), config.username@))
                &&& strictly_sorted(views(res.feedback_pending@))
                &&& forall|n: Seq<char>|
                    has_view(res.feedback_pending@, n) <==> feedback_name(
                        n,
                        spec_relevant(view_recs(updates@), config.username@),
                        inventory@,
                    )
                &&& sorted_by_alias(res.interesting_pending@)
                &&& interesting_from(
                    res.interesting_pending@,
                    spec_relevant(view_recs(updates@), config.username@),
                    inventory@,
                    views(config.interests@),
                )
                &&& forall|a: Seq<char>|
                    has_alias(res.interesting_pending@, a) <==> qualifying_alias(
                        a,
                        spec_relevant(view_recs(updates@), config.username@),
                        inventory@,
                        views(config.interests@),
                    )
            },
            Err(e) => {
                &&& !all_builds_parse(spec_relevant(view_recs(updates@), config.username@))
                &&& spec_parse_nvr(e.input@) is None
                &&& first_parse_failure(
                    e.input@,
                    spec_relevant(view_recs(updates@), config.username@),
                )
            },
        },
{
    let relevant = relevant_updates(updates, config.username.as_str());
    proof {
        assert(view_recs(relevant@) == spec_relevant(view_recs(updates@), config.username@));
    }
    classify(inventory, &relevant, &config.interests)
}

} // verus!

