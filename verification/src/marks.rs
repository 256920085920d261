use vstd::prelude::*;

use crate::matcher::views;

verus! {

/// The index of the first occurrence of `x` in `s`; -1 when `x` does not occur.
pub open spec fn first_index(s: Seq<Seq<char>>, x: Seq<char>) -> int
    decreases s.len(),
{
    if s.len() == 0 {
        -1
    } else if s[0] == x {
        0
    } else {
        let r = first_index(s.drop_first(), x);
        if r < 0 {
            -1
        } else {
            r + 1
        }
    }
}

/// The marks after toggling `text`: an empty text changes nothing; a marked text loses its
/// (first) mark; any other text is marked, after the existing marks.
pub open spec fn toggled(marks: Seq<Seq<char>>, text: Seq<char>) -> Seq<Seq<char>> {
    if text.len() == 0 {
        marks
    } else if first_index(marks, text) >= 0 {
        marks.remove(first_index(marks, text))
    } else {
        marks.push(text)
    }
}

/// `first_index` finds the first occurrence, and only finds occurrences.
pub proof fn lemma_first_index(s: Seq<Seq<char>>, x: Seq<char>)
    ensures
        -1 <= first_index(s, x) < s.len(),
        first_index(s, x) >= 0 ==> s[first_index(s, x)] == x,
        first_index(s, x) < 0 <==> !s.contains(x),
        forall|j: int| 0 <= j < first_index(s, x) ==> s[j] != x,
        first_index(s, x) < 0 ==> forall|j: int| 0 <= j < s.len() ==> s[j] != x,
    decreases s.len(),
{
    if s.len() > 0 && s[0] != x {
        let rest = s.drop_first();
        lemma_first_index(rest, x);
        assert forall|j: int| 0 < j < s.len() implies #[trigger] s[j] == rest[j - 1] by {}
        if first_index(s, x) < 0 {
            assert forall|j: int| 0 <= j < s.len() implies s[j] != x by {
                if j > 0 {
                    assert(s[j] == rest[j - 1]);
                }
            }
        } else {
            assert(s.contains(x)) by {
                assert(s[first_index(s, x)] == x);
            }
        }
        if s.contains(x) {
            let j = choose|j: int| 0 <= j < s.len() && s[j] == x;
            assert(rest[j - 1] == x);
        }
    } else if s.len() > 0 {
        assert(s.contains(x)) by {
            assert(s[0] == x);
        }
    }
}

/// Toggling a text that is not marked, and then toggling it again, gives back the marks
/// as they were.
pub proof fn lemma_toggle_twice_restores(marks: Seq<Seq<char>>, text: Seq<char>)
    requires
        !marks.contains(text),
    ensures
        toggled(toggled(marks, text), text) == marks,
{
    if text.len() > 0 {
        lemma_first_index(marks, text);
        let once = marks.push(text);
        lemma_first_index(once, text);
        assert(once[marks.len() as int] == text);
        assert(once.contains(text));
        assert(first_index(once, text) == marks.len()) by {
            if first_index(once, text) < marks.len() {
                assert(marks[first_index(once, text)] == once[first_index(once, text)]);
                assert(marks.contains(text));
            }
        }
        assert(once.remove(marks.len() as int) =~= marks);
    }
}

/// Toggling a non-empty text marks it exactly when it was not marked; and marks in which
/// nothing occurs twice keep that property.
pub proof fn lemma_toggle_flips_mark(marks: Seq<Seq<char>>, text: Seq<char>)
    requires
        text.len() > 0,
        marks.no_duplicates(),
    ensures
        toggled(marks, text).contains(text) <==> !marks.contains(text),
        toggled(marks, text).no_duplicates(),
{
    lemma_first_index(marks, text);
    let after = toggled(marks, text);
    if marks.contains(text) {
        let i = first_index(marks, text);
        assert forall|j: int| 0 <= j < after.len() implies after[j] != text by {
            if j < i {
                assert(after[j] == marks[j]);
            } else {
                assert(after[j] == marks[j + 1]);
            }
        }
        assert forall|a: int, b: int| 0 <= a < after.len() && 0 <= b < after.len() && a != b implies after[a]
            != after[b] by {
            let a0 = if a < i { a } else { a + 1 };
            let b0 = if b < i { b } else { b + 1 };
            assert(after[a] == marks[a0]);
            assert(after[b] == marks[b0]);
        }
    } else {
        assert(after[marks.len() as int] == text);
        assert forall|a: int, b: int| 0 <= a < after.len() && 0 <= b < after.len() && a != b implies after[a]
            != after[b] by {
            if a < marks.len() && b < marks.len() {
                assert(after[a] == marks[a]);
                assert(after[b] == marks[b]);
            } else if a < marks.len() {
                assert(after[a] == marks[a]);
            } else if b < marks.len() {
                assert(after[b] == marks[b]);
            }
        }
    }
}

/// Toggling one text leaves whether any other text is marked as it was.
pub proof fn lemma_toggle_keeps_other_marks(marks: Seq<Seq<char>>, text: Seq<char>, other: Seq<char>)
    requires
        other != text,
    ensures
        toggled(marks, text).contains(other) == marks.contains(other),
{
    lemma_first_index(marks, text);
    let after = toggled(marks, text);
    if text.len() > 0 {
        if marks.contains(text) {
            let i = first_index(marks, text);
            if marks.contains(other) {
                let j = choose|j: int| 0 <= j < marks.len() && marks[j] == other;
                assert(j != i);
                if j < i {
                    assert(after[j] == other);
                } else {
                    assert(after[j - 1] == other);
                }
            }
            if after.contains(other) {
                let j = choose|j: int| 0 <= j < after.len() && after[j] == other;
                if j < i {
                    assert(marks[j] == other);
                } else {
                    assert(marks[j + 1] == other);
                }
            }
        } else {
            if marks.contains(other) {
                let j = choose|j: int| 0 <= j < marks.len() && marks[j] == other;
                assert(after[j] == other);
            }
            if after.contains(other) {
                let j = choose|j: int| 0 <= j < after.len() && after[j] == other;
                assert(marks[j] == other);
            }
        }
    }
}

/// Toggling the empty text leaves the marks as they were.
pub proof fn lemma_toggle_empty_changes_nothing(marks: Seq<Seq<char>>)
    ensures
        toggled(marks, Seq::empty()) == marks,
{
}

/// Toggling a non-empty text that is not marked marks it after all the existing marks,
/// which stay as they were.
pub proof fn lemma_toggle_appends_new_mark(marks: Seq<Seq<char>>, text: Seq<char>)
    requires
        text.len() > 0,
        !marks.contains(text),
    ensures
        toggled(marks, text) == marks.push(text),
{
    lemma_first_index(marks, text);
}

/// Toggling a marked non-empty text, where no mark occurs twice, removes that mark and
/// leaves every other mark in its order.
pub proof fn lemma_toggle_removes_only_that_mark(marks: Seq<Seq<char>>, text: Seq<char>)
    requires
        text.len() > 0,
        marks.contains(text),
        marks.no_duplicates(),
    ensures
        toggled(marks, text) == marks.filter(|m: Seq<char>| m != text),
{
    lemma_first_index(marks, text);
    let i = first_index(marks, text);
    let pred = |m: Seq<char>| m != text;
    let before = marks.take(i);
    let after = marks.skip(i + 1);
    assert(marks =~= before + seq![text] + after);
    assert forall|j: int| 0 <= j < after.len() implies after[j] != text by {
        assert(after[j] == marks[i + 1 + j]);
    }
    lemma_filter_keeps_all(before, text);
    lemma_filter_keeps_all(after, text);
    Seq::filter_distributes_over_add(before + seq![text], after, pred);
    Seq::filter_distributes_over_add(before, seq![text], pred);
    assert(seq![text].filter(pred) =~= Seq::<Seq<char>>::empty()) by {
        reveal_with_fuel(vstd::seq::Seq::filter, 2);
        assert(seq![text].drop_last() =~= Seq::<Seq<char>>::empty());
    }
    assert(marks.remove(i) =~= before + after);
}

/// A sequence in which `x` does not occur is left whole by filtering `x` out.
proof fn lemma_filter_keeps_all(s: Seq<Seq<char>>, x: Seq<char>)
    requires
        forall|j: int| 0 <= j < s.len() ==> s[j] != x,
    ensures
        s.filter(|m: Seq<char>| m != x) == s,
    decreases s.len(),
{
    reveal(vstd::seq::Seq::filter);
    if s.len() > 0 {
        let rest = s.drop_last();
        assert forall|j: int| 0 <= j < rest.len() implies rest[j] != x by {
            assert(rest[j] == s[j]);
        }
        lemma_filter_keeps_all(rest, x);
        assert(s[s.len() - 1] == s.last());
        assert(rest.push(s.last()) =~= s);
    }
}

/// Toggles the mark on `text`: an empty text changes nothing; a marked text loses its
/// (first) mark; any other text is marked, after the existing marks.
pub fn toggle(marks: &mut Vec<String>, text: &str)
    ensures
        views(final(marks)@) == toggled(views(old(marks)@), text@),
{
    if text.is_empty() {
        return;
    }
    let ghost m = views(marks@);
    let t = String::from_str(text);
    let mut i: usize = 0;
    while i < marks.len()
        invariant
            m == views(marks@),
            m == views(old(marks)@),
            text@.len() > 0,
            t@ == text@,
            i <= marks.len(),
            forall|j: int| 0 <= j < i ==> m[j] != text@,
        decreases marks.len() - i,
    {
        if marks[i] == t {
            proof {
                assert(m[i as int] == text@);
                lemma_first_index(m, text@);
                assert(m.contains(text@));
                assert(first_index(m, text@) == i);
            }
            marks.remove(i);
            assert(views(marks@) =~= m.remove(i as int));
            return;
        }
        i = i + 1;
    }
    proof {
        lemma_first_index(m, text@);
    }
    marks.push(t);
    assert(views(marks@) =~= m.push(text@));
}

/// Removes every mark.
pub fn clear(marks: &mut Vec<String>)
    ensures
        final(marks)@.len() == 0,
{
    marks.clear();
}

} // verus!
