//! The list of recently launched applications, newest first.
use vstd::prelude::*;
use crate::text::views;

verus! {

/// How many names the list keeps.
pub const MAX_ENTRIES: usize = 50;

/// Keeps the names other than `name`.
pub open spec fn other_than(name: Seq<char>) -> spec_fn(Seq<char>) -> bool {
    |n: Seq<char>| n != name
}

/// The list after launching `name`: the name first, its earlier place
/// dropped, at most `MAX_ENTRIES` names.
pub open spec fn recorded(list: Seq<Seq<char>>, name: Seq<char>) -> Seq<Seq<char>> {
    let rest = list.filter(other_than(name));
    let all = seq![name] + rest;
    if all.len() > MAX_ENTRIES {
        all.take(MAX_ENTRIES as int)
    } else {
        all
    }
}

/// Moves `name` to the front of the recent list.
#[verifier::rlimit(40)]
pub fn record(list: &Vec<String>, name: &str) -> (r: Vec<String>)
    ensures
        views(r@) == recorded(views(list@), name@),
{
    let mut out: Vec<String> = Vec::new();
    out.push(crate::pratt::owned(name));
    let ghost es = views(list@);
    let mut i: usize = 0;
    proof {
        reveal_with_fuel(Seq::<_>::filter, 1);
        assert(es.take(0).filter(other_than(name@)) == Seq::<Seq<char>>::empty());
        assert(views(out@) == seq![name@] + es.take(0).filter(other_than(name@)));
    }
    while i < list.len()
        invariant
            i <= list.len(),
            es == views(list@),
            views(out@) == seq![name@] + es.take(i as int).filter(other_than(name@)),
        decreases list.len() - i,
    {
        proof {
            reveal_with_fuel(Seq::<_>::filter, 1);
            assert(es.take(i + 1).drop_last() == es.take(i as int));
            assert(es.take(i + 1).last() == list@[i as int]@);
        }
        let ghost before = views(out@);
        let ghost prev = es.take(i as int).filter(other_than(name@));
        if !crate::apps::str_eq(list[i].as_str(), name) {
            let c = list[i].clone();
            out.push(c);
            proof {
                assert(views(out@) == before.push(c@));
                assert(es.take(i + 1).filter(other_than(name@)) == prev.push(c@));
                assert(before.push(c@) == seq![name@] + prev.push(c@));
            }
        } else {
            assert(es.take(i + 1).filter(other_than(name@)) == prev);
        }
        i += 1;
    }
    assert(es.take(list.len() as int) == es);
    if out.len() > MAX_ENTRIES {
        out.truncate(MAX_ENTRIES);
        assert(views(out@) == (seq![name@] + es.filter(other_than(name@))).take(
            MAX_ENTRIES as int,
        ));
    }
    out
}

/// Law: after recording, the name is first and appears once, and the list
/// holds at most `MAX_ENTRIES` names.
pub proof fn law_recorded_first_and_unique(list: Seq<Seq<char>>, name: Seq<char>)
    ensures
        recorded(list, name).len() >= 1,
        recorded(list, name)[0] == name,
        recorded(list, name).len() <= MAX_ENTRIES,
        forall|i: int| 1 <= i < recorded(list, name).len() ==> #[trigger] recorded(list, name)[i] != name,
{
    let rest = list.filter(other_than(name));
    let all = seq![name] + rest;
    assert forall|i: int| 1 <= i < recorded(list, name).len() implies #[trigger] recorded(
        list,
        name,
    )[i] != name by {
        assert(recorded(list, name)[i] == all[i]);
        assert(all[i] == rest[i - 1]);
        broadcast use vstd::seq_lib::group_filter_ensures;

        assert((other_than(name))(rest[i - 1]));
    }
}

/// Law: recording keeps the other names in their order (those that fit).
pub proof fn law_recorded_keeps_order(list: Seq<Seq<char>>, name: Seq<char>)
    ensures
        recorded(list, name).drop_first() == list.filter(other_than(name)).take(
            recorded(list, name).len() - 1,
        ),
{
    let rest = list.filter(other_than(name));
    let all = seq![name] + rest;
    assert(all.drop_first() == rest);
    if all.len() > MAX_ENTRIES {
        assert(all.take(MAX_ENTRIES as int).drop_first() == rest.take(MAX_ENTRIES - 1));
    } else {
        assert(rest.take(rest.len() as int) == rest);
    }
}

} // verus!
