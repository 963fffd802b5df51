//! Building the canonical deep-link URL for pending updates: a fixed
//! query prefix, the release identifier, and a comma-joined package
//! list. Pure formatting; nothing is filtered here.

use vstd::prelude::*;
use vstd::string::{StringExecFns, StrSliceExecFns};

use crate::inventory::views;

verus! {

/// The parts joined by the separator: empty for no parts, and one
/// separator between each adjacent pair.
pub open spec fn spec_join(parts: Seq<Seq<char>>, sep: char) -> Seq<char>
    decreases parts.len(),
{
    if parts.len() == 0 {
        Seq::empty()
    } else if parts.len() == 1 {
        parts[0]
    } else {
        parts[0] + seq![sep] + spec_join(parts.skip(1), sep)
    }
}

proof fn lemma_join_push(parts: Seq<Seq<char>>, sep: char, x: Seq<char>)
    ensures
        spec_join(parts.push(x), sep) == if parts.len() == 0 {
            x
        } else {
            spec_join(parts, sep) + seq![sep] + x
        },
    decreases parts.len(),
{
    if parts.len() == 0 {
        assert(parts.push(x).len() == 1);
        assert(parts.push(x)[0] == x);
    } else {
        assert(parts.push(x)[0] == parts[0]);
        assert(parts.push(x).skip(1) =~= parts.skip(1).push(x));
        lemma_join_push(parts.skip(1), sep, x);
        if parts.len() == 1 {
            assert(parts.skip(1).len() == 0);
            assert(spec_join(parts.push(x), sep) =~= parts[0] + seq![sep] + x);
            assert(spec_join(parts, sep) == parts[0]);
        } else {
            assert(spec_join(parts.push(x), sep) =~= parts[0] + seq![sep] + (spec_join(
                parts.skip(1),
                sep,
            ) + seq![sep] + x));
            assert(parts[0] + seq![sep] + (spec_join(parts.skip(1), sep) + seq![sep] + x) =~= (
            parts[0] + seq![sep] + spec_join(parts.skip(1), sep)) + seq![sep] + x);
        }
    }
}

/// The deep link listing updates in testing for a release, restricted
/// to the given package names.
pub open spec fn spec_testing_url(release: Seq<char>, packages: Seq<Seq<char>>) -> Seq<char> {
    "https://bodhi.fedoraproject.org/updates/?release="@ + release
        + "&status=testing&packages="@ + spec_join(packages, ',')
}

/// Build the deep-link URL for the given release and package names.
pub fn testing_url(release: &str, packages: &Vec<String>) -> (r: String)
    ensures
        r@ == spec_testing_url(release@, views(packages@)),
{
    let mut u = String::from_str("https://bodhi.fedoraproject.org/updates/?release=");
    u.append(release);
    u.append("&status=testing&packages=");
    let ghost head = "https://bodhi.fedoraproject.org/updates/?release="@ + release@
        + "&status=testing&packages="@;
    proof {
        assert(u@ =~= head);
    }
    let mut i: usize = 0;
    while i < packages.len()
        invariant
            i <= packages@.len(),
            u@ == head + spec_join(views(packages@).take(i as int), ','),
        decreases packages@.len() - i,
    {
        let ghost parts = views(packages@).take(i as int);
        if i > 0 {
            u.append(",");
        }
        u.append(packages[i].as_str());
        proof {
            reveal_strlit(",");
            assert(","@ =~= seq![',']);
            lemma_join_push(parts, ',', views(packages@)[i as int]);
            assert(parts.push(views(packages@)[i as int]) =~= views(packages@).take(i as int + 1));
            assert(views(packages@)[i as int] == packages@[i as int]@);
            if i > 0 {
                assert(u@ =~= head + (spec_join(parts, ',') + seq![','] + packages@[i as int]@));
            } else {
                assert(parts.len() == 0);
                assert(spec_join(parts, ',') =~= Seq::<char>::empty());
                assert(u@ =~= head + packages@[i as int]@);
            }
        }
        i = i + 1;
    }
    proof {
        assert(views(packages@).take(packages@.len() as int) =~= views(packages@));
    }
    u
}

} // verus!
