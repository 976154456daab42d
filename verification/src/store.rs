//! The one-entry-per-line files the launcher keeps (calculation history,
//! recently launched applications).
use vstd::prelude::*;
use crate::text::{contains_any, contains_any_of, lines, lines_of, push_all, strip_cr, lemma_find_unique, views};

verus! {

/// An entry can be stored when it holds no line break.
pub open spec fn single_line(e: Seq<char>) -> bool {
    !contains_any(e, seq!['\r', '\n'])
}

/// The file contents for a list of entries: each storable entry followed by
/// a newline; entries with a line break are left out.
pub open spec fn entries_text(es: Seq<Seq<char>>) -> Seq<char>
    decreases es.len(),
{
    if es.len() == 0 {
        Seq::empty()
    } else {
        let rest = entries_text(es.drop_first());
        if single_line(es[0]) {
            es[0] + seq!['\n'] + rest
        } else {
            rest
        }
    }
}

/// The entries that survive storing.
pub open spec fn storable(es: Seq<Seq<char>>) -> Seq<Seq<char>>
    decreases es.len(),
{
    if es.len() == 0 {
        Seq::empty()
    } else if single_line(es[0]) {
        seq![es[0]] + storable(es.drop_first())
    } else {
        storable(es.drop_first())
    }
}

/// Whether an entry can be stored.
pub fn is_single_line(entry: &str) -> (b: bool)
    ensures
        b == single_line(entry@),
{
    proof {
        reveal_strlit("\r\n");
        assert("\r\n"@ == seq!['\r', '\n']);
    }
    !contains_any_of(entry, "\r\n")
}

proof fn lemma_entries_text_push(es: Seq<Seq<char>>, e: Seq<char>)
    ensures
        entries_text(es.push(e)) == entries_text(es) + (if single_line(e) {
            e + seq!['\n']
        } else {
            Seq::empty()
        }),
    decreases es.len(),
{
    if es.len() == 0 {
        assert(es.push(e).drop_first() == Seq::<Seq<char>>::empty());
        assert(es.push(e)[0] == e);
        assert(entries_text(Seq::<Seq<char>>::empty()) == Seq::<char>::empty());
        assert(e + seq!['\n'] + Seq::<char>::empty() == e + seq!['\n']);
        assert(Seq::<char>::empty() + (e + seq!['\n']) == e + seq!['\n']);
        assert(Seq::<char>::empty() + Seq::<char>::empty() == Seq::<char>::empty());
    } else {
        assert(es.push(e).drop_first() == es.drop_first().push(e));
        assert(es.push(e)[0] == es[0]);
        lemma_entries_text_push(es.drop_first(), e);
        let tail = if single_line(e) {
            e + seq!['\n']
        } else {
            Seq::<char>::empty()
        };
        assert(es[0] + seq!['\n'] + (entries_text(es.drop_first()) + tail) == (es[0] + seq!['\n']
            + entries_text(es.drop_first())) + tail);
    }
}

/// The contents to write for `entries`.
pub fn entries_contents(entries: &Vec<String>) -> (r: String)
    ensures
        r@ == entries_text(views(entries@)),
{
    let mut out = String::new();
    let mut i: usize = 0;
    let ghost es = views(entries@);
    assert(es.take(0) == Seq::<Seq<char>>::empty());
    while i < entries.len()
        invariant
            i <= entries.len(),
            es == views(entries@),
            out@ == entries_text(es.take(i as int)),
        decreases entries.len() - i,
    {
        let e = entries[i].as_str();
        proof {
            assert(es.take(i + 1) == es.take(i as int).push(e@));
            lemma_entries_text_push(es.take(i as int), e@);
        }
        if is_single_line(e) {
            push_all(&mut out, e);
            out.push('\n');
            assert(out@ == entries_text(es.take(i as int)) + (e@ + seq!['\n']));
        } else {
            assert(out@ == entries_text(es.take(i as int)) + Seq::<char>::empty());
        }
        i += 1;
    }
    assert(es.take(entries.len() as int) == es);
    out
}

/// The entries stored in a file's contents: its lines.
pub fn parse_entries(contents: &str) -> (r: Vec<String>)
    ensures
        views(r@) == lines(contents@),
{
    lines_of(contents)
}

/// Law: reading back what was stored gives the stored entries, those with a
/// line break left out, in order.
#[verifier::rlimit(40)]
pub proof fn law_entries_roundtrip(es: Seq<Seq<char>>)
    ensures
        lines(entries_text(es)) == storable(es),
    decreases es.len(),
{
    if es.len() > 0 {
        law_entries_roundtrip(es.drop_first());
        let e = es[0];
        if single_line(e) {
            let rest = entries_text(es.drop_first());
            let s = e + seq!['\n'] + rest;
            assert forall|i: int| 0 <= i < e.len() implies #[trigger] s[i] != '\n' by {
                assert(s[i] == e[i]);
                if e[i] == '\n' {
                    assert(seq!['\r', '\n'].contains(e[i]));
                }
            }
            assert(s[e.len() as int] == '\n');
            lemma_find_unique(s, '\n', e.len() as int);
            assert(s.take(e.len() as int) == e);
            assert(s.skip(e.len() as int + 1) == rest);
            if e.len() > 0 {
                assert(e.last() != '\r') by {
                    if e.last() == '\r' {
                        assert(seq!['\r', '\n'].contains(e[e.len() - 1]));
                    }
                }
            }
            assert(strip_cr(e) == e);
        }
    }
}

/// The directory the launcher keeps its files in: `mylauncher` under
/// `$XDG_DATA_HOME` when that is set and not empty, else under
/// `$HOME/.local/share` (`.` standing in for an unset `HOME`).
pub open spec fn data_dir_of(data_home: Option<Seq<char>>, home: Option<Seq<char>>) -> Seq<char> {
    let base = match data_home {
        Some(d) if d.len() > 0 => d,
        _ => crate::apps::path_join(
            match home {
                Some(h) => h,
                None => "."@,
            },
            ".local/share"@,
        ),
    };
    crate::apps::path_join(base, "mylauncher"@)
}

/// The data directory from the values of `XDG_DATA_HOME` and `HOME`.
pub fn data_dir(data_home: Option<&str>, home: Option<&str>) -> (r: String)
    ensures
        r@ == data_dir_of(
            match data_home {
                Some(s) => Some(s@),
                None => None,
            },
            match home {
                Some(s) => Some(s@),
                None => None,
            },
        ),
{
    let base = match data_home {
        Some(d) if !d.is_empty() => crate::pratt::owned(d),
        _ => {
            let h = match home {
                Some(h) => h,
                None => ".",
            };
            crate::apps::join_path(h, ".local/share")
        },
    };
    crate::apps::join_path(base.as_str(), "mylauncher")
}

/// The stored contents after appending `entry`, or `None` when the entry
/// holds a line break and so cannot be stored.
pub fn appended_contents(entries: &Vec<String>, entry: &str) -> (r: Option<String>)
    ensures
        single_line(entry@) ==> (r matches Some(s) && s@ == entries_text(
            views(entries@).push(entry@),
        )),
        !single_line(entry@) ==> r is None,
{
    if !is_single_line(entry) {
        return None;
    }
    let mut all: Vec<String> = Vec::new();
    let mut i: usize = 0;
    while i < entries.len()
        invariant
            i <= entries.len(),
            views(all@) == views(entries@).take(i as int),
        decreases entries.len() - i,
    {
        all.push(entries[i].clone());
        assert(views(all@) == views(all@.drop_last()).push(all@.last()@));
        assert(views(entries@).take(i + 1) == views(entries@).take(i as int).push(entries@[i as int]@));
        i += 1;
    }
    all.push(crate::pratt::owned(entry));
    assert(views(all@) == views(all@.drop_last()).push(all@.last()@));
    assert(views(entries@).take(entries.len() as int) == views(entries@));
    assert(views(all@) == views(entries@).push(entry@));
    Some(entries_contents(&all))
}

} // verus!
