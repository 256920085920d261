use vstd::prelude::*;

use crate::matcher::views;

verus! {

/// A JSON value. A number is serde_json's own number, carried through unread; an object keeps
/// its members in order.
#[derive(Debug)]
pub enum Json {
    Null,
    Bool(bool),
    Number(serde_json::Number),
    Str(String),
    Array(Vec<Json>),
    Object(Vec<(String, Json)>),
}

/// The value of the first member of `members` named `key`.
pub open spec fn member(members: Seq<(String, Json)>, key: Seq<char>) -> Option<Json>
    decreases members.len(),
{
    if members.len() == 0 {
        None
    } else if members[0].0@ == key {
        Some(members[0].1)
    } else {
        member(members.drop_first(), key)
    }
}

/// The label of a task: its `label` member, where the task is an object and that member is
/// a string.
pub open spec fn task_label(task: Json) -> Option<Seq<char>> {
    match task {
        Json::Object(members) => match member(members@, "label"@) {
            Some(Json::Str(s)) => Some(s@),
            _ => None,
        },
        _ => None,
    }
}

/// The labels of those of `tasks` that have one, in order.
pub open spec fn labels(tasks: Seq<Json>) -> Seq<Seq<char>>
    decreases tasks.len(),
{
    if tasks.len() == 0 {
        Seq::empty()
    } else {
        let rest = labels(tasks.drop_last());
        match task_label(tasks.last()) {
            Some(label) => rest.push(label),
            None => rest,
        }
    }
}

/// `task` gives way to `ours`: it has a label, and one of `ours` has the same label.
pub open spec fn is_replaced(task: Json, ours: Seq<Json>) -> bool {
    match task_label(task) {
        Some(label) => labels(ours).contains(label),
        None => false,
    }
}

/// The tasks of `existing` that stay beside `ours`, in their order: those that do not give
/// way to one of `ours`.
pub open spec fn kept(existing: Seq<Json>, ours: Seq<Json>) -> Seq<Json>
    decreases existing.len(),
{
    if existing.len() == 0 {
        Seq::empty()
    } else {
        let rest = kept(existing.drop_last(), ours);
        if is_replaced(existing.last(), ours) {
            rest
        } else {
            rest.push(existing.last())
        }
    }
}

/// `existing` merged with `ours`: the tasks that stay, then all of `ours`.
pub open spec fn merged(existing: Seq<Json>, ours: Seq<Json>) -> Seq<Json> {
    kept(existing, ours) + ours
}

/// The label of `task` (see [`task_label`]).
pub fn label_of(task: &Json) -> (label: Option<String>)
    ensures
        match label {
            Some(l) => task_label(*task) == Some(l@),
            None => task_label(*task) is None,
        },
{
    match task {
        Json::Object(members) => {
            let key = String::from_str("label");
            let mut i: usize = 0;
            assert(members@.skip(0) =~= members@);
            while i < members.len()
                invariant
                    key@ == "label"@,
                    *task == Json::Object(*members),
                    i <= members.len(),
                    member(members@, key@) == member(members@.skip(i as int), key@),
                decreases members.len() - i,
            {
                let ghost rest = members@.skip(i as int);
                assert(rest[0] == members@[i as int]);
                assert(rest.drop_first() =~= members@.skip(i + 1));
                if members[i].0 == key {
                    assert(member(members@, key@) == Some(members@[i as int].1));
                    return match &members[i].1 {
                        Json::Str(s) => Some(s.clone()),
                        _ => None,
                    };
                }
                i = i + 1;
            }
            None
        },
        _ => None,
    }
}

/// Whether one of `labels` equals `label`.
fn contains_label(labels: &Vec<String>, label: &String) -> (r: bool)
    ensures
        r == views(labels@).contains(label@),
{
    let mut i: usize = 0;
    while i < labels.len()
        invariant
            i <= labels.len(),
            forall|j: int| 0 <= j < i ==> labels[j]@ != label@,
        decreases labels.len() - i,
    {
        if labels[i] == *label {
            assert(views(labels@)[i as int] == label@);
            return true;
        }
        i = i + 1;
    }
    assert forall|j: int| 0 <= j < views(labels@).len() implies views(labels@)[j] != label@ by {
        assert(views(labels@)[j] == labels[j]@);
    }
    false
}

/// Merges the tasks `ours` into the `existing` tasks: an existing task that has the label of
/// one of `ours` gives way to it; the other existing tasks stay, in their order, and all of
/// `ours` follow them.
pub fn merge_task_lists(existing: Vec<Json>, ours: Vec<Json>) -> (tasks: Vec<Json>)
    ensures
        tasks@ == merged(existing@, ours@),
{
    let mut our_labels: Vec<String> = Vec::new();
    for j in 0..ours.len()
        invariant
            views(our_labels@) == labels(ours@.take(j as int)),
    {
        let ghost pre = ours@.take(j as int);
        let ghost cur = ours@.take(j + 1);
        assert(cur.drop_last() =~= pre);
        assert(cur.last() == ours@[j as int]);
        let ghost before = our_labels@;
        let found = label_of(&ours[j]);
        match found {
            Some(l) => {
                our_labels.push(l);
                assert(views(our_labels@) =~= views(before).push(l@));
            },
            None => {},
        }
    }
    assert(ours@.take(ours.len() as int) =~= ours@);
    let ghost all = existing@;
    let n = existing.len();
    assert(all.len() == n);
    let mut rest = existing;
    let mut tasks: Vec<Json> = Vec::new();
    let mut i: usize = 0;
    while rest.len() > 0
        invariant
            i + rest.len() == all.len(),
            all.len() <= usize::MAX,
            rest@ == all.skip(i as int),
            tasks@ == kept(all.take(i as int), ours@),
            views(our_labels@) == labels(ours@),
        decreases rest.len(),
    {
        let task = rest.remove(0);
        assert(task == all[i as int]);
        assert(all.take(i + 1).drop_last() =~= all.take(i as int));
        let replaced = match label_of(&task) {
            Some(l) => contains_label(&our_labels, &l),
            None => false,
        };
        assert(replaced == is_replaced(task, ours@));
        if !replaced {
            tasks.push(task);
        }
        assert(rest@ =~= all.skip(i + 1));
        i = i + 1;
    }
    assert(all.take(i as int) =~= all);
    let mut ours = ours;
    tasks.append(&mut ours);
    tasks
}


/// Keeping the tasks of two lists one after the other keeps those of each.
proof fn lemma_kept_concat(a: Seq<Json>, b: Seq<Json>, ours: Seq<Json>)
    ensures
        kept(a + b, ours) == kept(a, ours) + kept(b, ours),
    decreases b.len(),
{
    if b.len() == 0 {
        assert(a + b =~= a);
        assert(kept(a, ours) + kept(b, ours) =~= kept(a, ours));
    } else {
        lemma_kept_concat(a, b.drop_last(), ours);
        assert((a + b).drop_last() =~= a + b.drop_last());
        assert((a + b).last() == b.last());
        if is_replaced(b.last(), ours) {
        } else {
            assert(kept(a, ours) + kept(b, ours) =~= (kept(a, ours) + kept(b.drop_last(), ours)).push(
                b.last(),
            ));
        }
    }
}

/// The tasks that stay are tasks of `existing`, none gives way to `ours`, and every task of
/// `existing` that does not give way stays.
pub proof fn lemma_kept_members(existing: Seq<Json>, ours: Seq<Json>)
    ensures
        forall|i: int|
            0 <= i < kept(existing, ours).len() ==> !is_replaced(#[trigger] kept(existing, ours)[i], ours)
                && existing.contains(kept(existing, ours)[i]),
        forall|i: int|
            0 <= i < existing.len() && !is_replaced(#[trigger] existing[i], ours) ==> kept(
                existing,
                ours,
            ).contains(existing[i]),
    decreases existing.len(),
{
    if existing.len() > 0 {
        let rest = existing.drop_last();
        lemma_kept_members(rest, ours);
        let k = kept(existing, ours);
        let kr = kept(rest, ours);
        assert forall|i: int| 0 <= i < k.len() implies !is_replaced(#[trigger] k[i], ours) && existing.contains(
            k[i],
        ) by {
            if i < kr.len() {
                assert(k[i] == kr[i]);
                let j = choose|j: int| 0 <= j < rest.len() && rest[j] == kr[i];
                assert(existing[j] == rest[j]);
            } else {
                assert(k[i] == existing.last());
                assert(existing[existing.len() - 1] == existing.last());
            }
        }
        assert forall|i: int| 0 <= i < existing.len() && !is_replaced(#[trigger] existing[i], ours) implies k.contains(
            existing[i],
        ) by {
            if i < rest.len() {
                assert(rest[i] == existing[i]);
                let j = choose|j: int| 0 <= j < kr.len() && kr[j] == rest[i];
                assert(k[j] == kr[j]);
            } else {
                assert(k[k.len() - 1] == existing.last());
            }
        }
    }
}

/// Tasks none of which gives way to `ours` all stay.
proof fn lemma_kept_all(tasks: Seq<Json>, ours: Seq<Json>)
    requires
        forall|i: int| 0 <= i < tasks.len() ==> !is_replaced(#[trigger] tasks[i], ours),
    ensures
        kept(tasks, ours) == tasks,
    decreases tasks.len(),
{
    if tasks.len() > 0 {
        let rest = tasks.drop_last();
        assert forall|i: int| 0 <= i < rest.len() implies !is_replaced(#[trigger] rest[i], ours) by {
            assert(rest[i] == tasks[i]);
        }
        lemma_kept_all(rest, ours);
        assert(tasks[tasks.len() - 1] == tasks.last());
        assert(rest.push(tasks.last()) =~= tasks);
    }
}

/// The label of each labelled task is among the labels.
proof fn lemma_labels_contain(tasks: Seq<Json>)
    ensures
        forall|j: int|
            0 <= j < tasks.len() && (#[trigger] task_label(tasks[j])) is Some ==> labels(tasks).contains(
                task_label(tasks[j])->0,
            ),
    decreases tasks.len(),
{
    if tasks.len() > 0 {
        let rest = tasks.drop_last();
        lemma_labels_contain(rest);
        assert forall|j: int|
            0 <= j < tasks.len() && (#[trigger] task_label(tasks[j])) is Some implies labels(tasks).contains(
                task_label(tasks[j])->0,
            ) by {
            let ls = labels(tasks);
            if j < rest.len() {
                assert(rest[j] == tasks[j]);
                assert(task_label(rest[j]) is Some);
                let k = choose|k: int| 0 <= k < labels(rest).len() && labels(rest)[k] == task_label(rest[j])->0;
                assert(ls[k] == labels(rest)[k]);
            } else {
                assert(tasks[j] == tasks.last());
                assert(ls[ls.len() - 1] == task_label(tasks[j])->0);
            }
        }
    }
}

/// The merged tasks are the existing tasks that stay, each an existing task that does not
/// give way, followed by all of `ours` in their order; where no existing task gives way,
/// they are the existing tasks followed by `ours`.
pub proof fn lemma_merged_layout(existing: Seq<Json>, ours: Seq<Json>)
    ensures
        merged(existing, ours).len() == kept(existing, ours).len() + ours.len(),
        forall|i: int|
            0 <= i < kept(existing, ours).len() ==> !is_replaced(#[trigger] merged(existing, ours)[i], ours)
                && existing.contains(merged(existing, ours)[i]),
        forall|j: int|
            0 <= j < ours.len() ==> #[trigger] merged(existing, ours)[kept(existing, ours).len() + j] == ours[j],
        (forall|i: int| 0 <= i < existing.len() ==> !is_replaced(#[trigger] existing[i], ours)) ==> merged(
            existing,
            ours,
        ) == existing + ours,
{
    lemma_kept_members(existing, ours);
    let k = kept(existing, ours);
    let m = merged(existing, ours);
    assert forall|i: int| 0 <= i < k.len() implies !is_replaced(#[trigger] m[i], ours) && existing.contains(m[i]) by {
        assert(m[i] == k[i]);
    }
    if forall|i: int| 0 <= i < existing.len() ==> !is_replaced(#[trigger] existing[i], ours) {
        lemma_kept_all(existing, ours);
    }
}

/// Each label among the labels is the label of one of the tasks.
proof fn lemma_labels_come_from(tasks: Seq<Json>)
    ensures
        forall|i: int|
            0 <= i < labels(tasks).len() ==> exists|j: int|
                0 <= j < tasks.len() && task_label(#[trigger] tasks[j]) == Some(#[trigger] labels(tasks)[i]),
    decreases tasks.len(),
{
    if tasks.len() > 0 {
        let rest = tasks.drop_last();
        lemma_labels_come_from(rest);
        let ls = labels(tasks);
        assert forall|i: int| 0 <= i < ls.len() implies exists|j: int|
            0 <= j < tasks.len() && task_label(#[trigger] tasks[j]) == Some(#[trigger] ls[i]) by {
            if i < labels(rest).len() {
                assert(ls[i] == labels(rest)[i]);
                let j = choose|j: int| 0 <= j < rest.len() && task_label(#[trigger] rest[j]) == Some(labels(rest)[i]);
                assert(tasks[j] == rest[j]);
            } else {
                assert(tasks[tasks.len() - 1] == tasks.last());
            }
        }
    }
}

/// A task gives way to `ours` exactly when it has a label and one of `ours` has the same
/// label.
pub proof fn lemma_replaced_iff_same_label(task: Json, ours: Seq<Json>)
    ensures
        is_replaced(task, ours) <==> (task_label(task) is Some && exists|j: int|
            0 <= j < ours.len() && #[trigger] task_label(ours[j]) == task_label(task)),
{
    lemma_labels_contain(ours);
    lemma_labels_come_from(ours);
    if task_label(task) is Some {
        let l = task_label(task)->0;
        if labels(ours).contains(l) {
            let i = choose|i: int| 0 <= i < labels(ours).len() && labels(ours)[i] == l;
            let j = choose|j: int| 0 <= j < ours.len() && task_label(#[trigger] ours[j]) == Some(labels(ours)[i]);
        }
    }
}

/// The label of an object is the value of its first member named `label`, where that value
/// is a string; an object whose first such member holds anything else has none.
pub proof fn lemma_label_is_label_member(members: Vec<(String, Json)>, i: int)
    requires
        0 <= i < members.len(),
        members@[i].0@ == "label"@,
        forall|j: int| 0 <= j < i ==> (#[trigger] members@[j]).0@ != "label"@,
    ensures
        task_label(Json::Object(members)) == match members@[i].1 {
            Json::Str(s) => Some(s@),
            _ => None::<Seq<char>>,
        },
{
    lemma_member_first(members@, "label"@, i);
}

/// The member found under `key` is the first one named `key`.
proof fn lemma_member_first(members: Seq<(String, Json)>, key: Seq<char>, i: int)
    requires
        0 <= i < members.len(),
        members[i].0@ == key,
        forall|j: int| 0 <= j < i ==> (#[trigger] members[j]).0@ != key,
    ensures
        member(members, key) == Some(members[i].1),
    decreases i,
{
    if i > 0 {
        let rest = members.drop_first();
        assert(members[0].0@ != key);
        assert forall|j: int| 0 <= j < i - 1 implies (#[trigger] rest[j]).0@ != key by {
            assert(rest[j] == members[j + 1]);
        }
        lemma_member_first(rest, key, i - 1);
    }
}

/// Merging the same tasks a second time changes nothing, when each of them has a label.
pub proof fn lemma_merge_idempotent(existing: Seq<Json>, ours: Seq<Json>)
    requires
        forall|j: int| 0 <= j < ours.len() ==> (#[trigger] task_label(ours[j])) is Some,
    ensures
        merged(merged(existing, ours), ours) == merged(existing, ours),
{
    let once = merged(existing, ours);
    lemma_kept_concat(kept(existing, ours), ours, ours);
    lemma_kept_members(existing, ours);
    lemma_kept_all(kept(existing, ours), ours);
    lemma_labels_contain(ours);
    assert forall|i: int| 0 <= i < ours.len() implies is_replaced(#[trigger] ours[i], ours) by {
        assert(task_label(ours[i]) is Some);
    }
    lemma_kept_none(ours, ours);
    assert(kept(ours, ours) =~= Seq::<Json>::empty());
}

/// Tasks each of which gives way to `ours` all go.
proof fn lemma_kept_none(tasks: Seq<Json>, ours: Seq<Json>)
    requires
        forall|i: int| 0 <= i < tasks.len() ==> is_replaced(#[trigger] tasks[i], ours),
    ensures
        kept(tasks, ours).len() == 0,
    decreases tasks.len(),
{
    if tasks.len() > 0 {
        let rest = tasks.drop_last();
        assert forall|i: int| 0 <= i < rest.len() implies is_replaced(#[trigger] rest[i], ours) by {
            assert(rest[i] == tasks[i]);
        }
        lemma_kept_none(rest, ours);
        assert(tasks[tasks.len() - 1] == tasks.last());
    }
}


/// The tasks that `text-marker install` merges into Zed's `tasks.json`: one that toggles the
/// mark on the selected text, one that clears every mark.
pub const BUNDLED_TASKS: &'static str = r#"[
  {
    "label": "text-marker: toggle",
    "command": "text-marker",
    "args": ["toggle", "\"$ZED_SELECTED_TEXT\""],
    "use_new_terminal": false,
    "allow_concurrent_runs": true,
    "reveal": "never",
    "hide": "always"
  },
  {
    "label": "text-marker: clear",
    "command": "text-marker",
    "args": ["clear"],
    "use_new_terminal": false,
    "allow_concurrent_runs": true,
    "reveal": "never",
    "hide": "always"
  }
]
"#;

/// The bundled task definitions, a JSON array (see [`BUNDLED_TASKS`]).
pub fn bundled_tasks() -> (tasks: &'static str)
    ensures
        tasks@ == BUNDLED_TASKS@,
{
    BUNDLED_TASKS
}

/// Characters with the Unicode property White_Space (those that `str::trim` removes).
pub open spec fn is_white_space(c: char) -> bool {
    let v = c as u32;
    ||| 0x09 <= v <= 0x0d
    ||| v == 0x20
    ||| v == 0x85
    ||| v == 0xa0
    ||| v == 0x1680
    ||| 0x2000 <= v <= 0x200a
    ||| v == 0x2028
    ||| v == 0x2029
    ||| v == 0x202f
    ||| v == 0x205f
    ||| v == 0x3000
}

/// The white space characters are tab, line feed, vertical tab, form feed, carriage
/// return, space, next line, no-break space, ogham space mark, the spaces from en quad to
/// hair space, line separator, paragraph separator, narrow no-break space, medium
/// mathematical space and ideographic space.
pub proof fn lemma_white_space_characters(c: char)
    ensures
        is_white_space(c) <==> {
            ||| c == '\t' || c == '\n' || c == '\u{0B}' || c == '\u{0C}' || c == '\r' || c == ' '
            ||| c == '\u{85}' || c == '\u{A0}' || c == '\u{1680}'
            ||| '\u{2000}' as u32 <= c as u32 <= '\u{200A}' as u32
            ||| c == '\u{2028}' || c == '\u{2029}' || c == '\u{202F}' || c == '\u{205F}' || c == '\u{3000}'
        },
{
}

/// Whether `c` is white space (see [`is_white_space`]).
fn white_space(c: char) -> (r: bool)
    ensures
        r == is_white_space(c),
{
    let v = c as u32;
    (0x09 <= v && v <= 0x0d) || v == 0x20 || v == 0x85 || v == 0xa0 || v == 0x1680 || (0x2000 <= v
        && v <= 0x200a) || v == 0x2028 || v == 0x2029 || v == 0x202f || v == 0x205f || v == 0x3000
}

/// `text` is empty once white space is trimmed from it.
pub open spec fn is_blank(text: Seq<char>) -> bool {
    forall|i: int| 0 <= i < text.len() ==> is_white_space(#[trigger] text[i])
}

/// Whether `text` holds nothing but white space.
pub fn blank(text: &str) -> (r: bool)
    ensures
        r == is_blank(text@),
{
    for c in it: text.chars()
        invariant
            it.seq() == text@,
            forall|i: int| 0 <= i < it.index() ==> is_white_space(#[trigger] text@[i]),
    {
        if !white_space(c) {
            return false;
        }
    }
    true
}

/// The existing tasks file's text that is to be read: none when there is no file or it holds
/// nothing but white space, which counts as no task.
pub fn existing_tasks_text(existing: Option<&str>) -> (text: Option<&str>)
    ensures
        text == match existing {
            Some(s) => if is_blank(s@) {
                None
            } else {
                Some(s)
            },
            None => None,
        },
{
    match existing {
        Some(s) => if blank(s) {
            None
        } else {
            Some(s)
        },
        None => None,
    }
}


/// `a` sorts before `b` as Rust orders strings: by the first character in which they differ
/// (by code point), and a proper prefix first.
pub open spec fn key_lt(a: Seq<char>, b: Seq<char>) -> bool
    decreases a.len(),
{
    if b.len() == 0 {
        false
    } else if a.len() == 0 {
        true
    } else if a[0] != b[0] {
        (a[0] as u32) < (b[0] as u32)
    } else {
        key_lt(a.drop_first(), b.drop_first())
    }
}

/// `j` is a value as serde_json's map gives it: in each object, and in each value nested in
/// one, the members' names are all different and come in sorted order.
pub open spec fn is_canonical(j: Json) -> bool
    decreases j,
{
    match j {
        Json::Array(items) => forall|i: int| 0 <= i < items.len() ==> is_canonical(#[trigger] items@[i]),
        Json::Object(members) => {
            &&& forall|i: int, k: int|
                0 <= i < k < members.len() ==> key_lt(#[trigger] members@[i].0@, #[trigger] members@[k].0@)
            &&& forall|i: int| 0 <= i < members.len() ==> is_canonical(#[trigger] members@[i].1)
        },
        _ => true,
    }
}

/// Each of `tasks` is canonical (see [`is_canonical`]).
pub open spec fn all_canonical(tasks: Seq<Json>) -> bool {
    forall|i: int| 0 <= i < tasks.len() ==> is_canonical(#[trigger] tasks[i])
}

/// `a` and `b` have the same shape: the same kind of value, the same booleans and strings,
/// arrays of the same length whose items agree in order, objects whose members agree in
/// order by name and value; any two numbers agree.
pub open spec fn same_shape(a: Json, b: Json) -> bool
    decreases a,
{
    match a {
        Json::Null => b is Null,
        Json::Bool(x) => b matches Json::Bool(y) && x == y,
        Json::Number(_) => b is Number,
        Json::Str(x) => b matches Json::Str(y) && x@ == y@,
        Json::Array(xs) => b matches Json::Array(ys) && xs.len() == ys.len() && forall|i: int|
            0 <= i < xs.len() ==> same_shape(#[trigger] xs@[i], ys@[i]),
        Json::Object(xs) => b matches Json::Object(ys) && xs.len() == ys.len() && forall|i: int|
            0 <= i < xs.len() ==> (#[trigger] xs@[i]).0@ == ys@[i].0@ && same_shape(xs@[i].1, ys@[i].1),
    }
}

/// `a` and `b` agree item by item in shape (see [`same_shape`]).
pub open spec fn same_shapes(a: Seq<Json>, b: Seq<Json>) -> bool {
    &&& a.len() == b.len()
    &&& forall|i: int| 0 <= i < a.len() ==> same_shape(#[trigger] a[i], b[i])
}

/// `j` holds no number, and no more than `depth` arrays and objects are nested in it, `j`
/// itself included.
pub open spec fn plain_within(j: Json, depth: nat) -> bool
    decreases j,
{
    match j {
        Json::Number(_) => false,
        Json::Array(items) => depth > 0 && forall|i: int|
            0 <= i < items.len() ==> plain_within(#[trigger] items@[i], (depth - 1) as nat),
        Json::Object(members) => depth > 0 && forall|i: int|
            0 <= i < members.len() ==> plain_within(#[trigger] members@[i].1, (depth - 1) as nat),
        _ => true,
    }
}

/// Whether `a` and `b` have the same shape (see [`same_shape`]).
fn same_json_shape(a: &Json, b: &Json) -> (r: bool)
    ensures
        r == same_shape(*a, *b),
    decreases a,
{
    match a {
        Json::Null => matches!(b, Json::Null),
        Json::Bool(x) => match b {
            Json::Bool(y) => *x == *y,
            _ => false,
        },
        Json::Number(_) => matches!(b, Json::Number(_)),
        Json::Str(x) => match b {
            Json::Str(y) => *x == *y,
            _ => false,
        },
        Json::Array(xs) => match b {
            Json::Array(ys) => {
                if xs.len() != ys.len() {
                    return false;
                }
                let mut i: usize = 0;
                while i < xs.len()
                    invariant
                        *a == Json::Array(*xs),
                        *b == Json::Array(*ys),
                        xs.len() == ys.len(),
                        i <= xs.len(),
                        forall|j: int| 0 <= j < i ==> same_shape(#[trigger] xs@[j], ys@[j]),
                    decreases xs.len() - i,
                {
                    proof {
                        assert(decreases_to!(*a => (*a)->Array_0));
                        assert(decreases_to!(*a => xs@[i as int]));
                    }
                    if !same_json_shape(&xs[i], &ys[i]) {
                        assert(!same_shape(xs@[i as int], ys@[i as int]));
                        return false;
                    }
                    i = i + 1;
                }
                true
            },
            _ => false,
        },
        Json::Object(xs) => match b {
            Json::Object(ys) => {
                if xs.len() != ys.len() {
                    return false;
                }
                let mut i: usize = 0;
                while i < xs.len()
                    invariant
                        *a == Json::Object(*xs),
                        *b == Json::Object(*ys),
                        xs.len() == ys.len(),
                        i <= xs.len(),
                        forall|j: int|
                            0 <= j < i ==> (#[trigger] xs@[j]).0@ == ys@[j].0@ && same_shape(xs@[j].1, ys@[j].1),
                    decreases xs.len() - i,
                {
                    if xs[i].0 != ys[i].0 {
                        return false;
                    }
                    proof {
                        assert(decreases_to!(*a => (*a)->Object_0));
                        assert(decreases_to!(*a => xs@[i as int].1));
                    }
                    if !same_json_shape(&xs[i].1, &ys[i].1) {
                        assert(!same_shape(xs@[i as int].1, ys@[i as int].1));
                        return false;
                    }
                    i = i + 1;
                }
                true
            },
            _ => false,
        },
    }
}

/// Whether `a` and `b` agree item by item in shape (see [`same_shapes`]).
fn same_json_shapes(a: &Vec<Json>, b: &Vec<Json>) -> (r: bool)
    ensures
        r == same_shapes(a@, b@),
{
    if a.len() != b.len() {
        return false;
    }
    let mut i: usize = 0;
    while i < a.len()
        invariant
            a.len() == b.len(),
            i <= a.len(),
            forall|j: int| 0 <= j < i ==> same_shape(#[trigger] a@[j], b@[j]),
        decreases a.len() - i,
    {
        if !same_json_shape(&a[i], &b[i]) {
            return false;
        }
        i = i + 1;
    }
    true
}

/// serde_json's JSON value, carried through the calls below without being looked into.
#[verifier::external_type_specification]
#[verifier::external_body]
pub struct ExJsonValue(serde_json::Value);

/// serde_json's JSON number, carried in [`Json`] without being looked into.
#[verifier::external_type_specification]
#[verifier::external_body]
pub struct ExJsonNumber(serde_json::Number);

/// What `serde_json::from_str::<Vec<serde_json::Value>>` reads from `text`, as `Json` values;
/// `None` when `text` is not a JSON array.
pub uninterp spec fn spec_parse_tasks(text: Seq<char>) -> Option<Seq<Json>>;

/// What `serde_json::to_string_pretty` prints for `tasks`, each turned into a
/// `serde_json::Value`.
pub uninterp spec fn spec_print_tasks(tasks: Seq<Json>) -> Seq<char>;

/// The `Json` value that holds `v`: one arm per variant of `serde_json::Value`, moving the
/// fields. Nothing is claimed of it here; `parse_tasks` states what the parse and this
/// conversion give together.
#[verifier::external_body]
fn value_to_json(v: serde_json::Value) -> Json {
    match v {
        serde_json::Value::Null => Json::Null,
        serde_json::Value::Bool(b) => Json::Bool(b),
        serde_json::Value::Number(n) => Json::Number(n),
        serde_json::Value::String(s) => Json::Str(s),
        serde_json::Value::Array(items) => Json::Array(items.into_iter().map(value_to_json).collect()),
        serde_json::Value::Object(m) => Json::Object(m.into_iter().map(|(k, v)| (k, value_to_json(v))).collect()),
    }
}

/// The `serde_json::Value` that holds `j`: one arm per variant, moving the fields (members
/// named alike keep the last one, as a `serde_json::Map` does). Nothing is claimed of it
/// here; `print_tasks` states what this conversion and the printing give together.
#[verifier::external_body]
fn json_to_value(j: Json) -> serde_json::Value {
    match j {
        Json::Null => serde_json::Value::Null,
        Json::Bool(b) => serde_json::Value::Bool(b),
        Json::Number(n) => serde_json::Value::Number(n),
        Json::Str(s) => serde_json::Value::String(s),
        Json::Array(items) => serde_json::Value::Array(items.into_iter().map(json_to_value).collect()),
        Json::Object(m) => serde_json::Value::Object(m.into_iter().map(|(k, v)| (k, json_to_value(v))).collect()),
    }
}

/// Reads a JSON array of tasks with `serde_json::from_str`. The result is the name
/// [`spec_parse_tasks`] of the text: the same text always reads the same; what JSON reads to
/// what is not written out here. The tasks read are canonical: serde_json keeps an object's
/// members in a `BTreeMap`, which holds each name once and hands the members out sorted by
/// name.
#[verifier::external_body]
fn parse_tasks(text: &str) -> (r: Option<Vec<Json>>)
    ensures
        match r {
            Some(v) => spec_parse_tasks(text@) == Some(v@) && all_canonical(v@),
            None => spec_parse_tasks(text@) is None,
        },
{
    let values: Vec<serde_json::Value> = serde_json::from_str(text).ok()?;
    Some(values.into_iter().map(value_to_json).collect())
}

/// `text` reads back to tasks of the same shape as `tasks` (see [`same_shape`]); where it
/// cannot be read, one of `tasks` holds a number or nests arrays and objects more than 126
/// deep.
pub open spec fn reads_back(text: Seq<char>, tasks: Seq<Json>) -> bool {
    match spec_parse_tasks(text) {
        Some(back) => same_shapes(back, tasks),
        None => exists|i: int| 0 <= i < tasks.len() && !plain_within(#[trigger] tasks[i], 126),
    }
}

/// Prints tasks as a JSON array with `serde_json::to_string_pretty`. The result is the name
/// [`spec_print_tasks`] of the tasks: the same tasks always print the same; the printed text
/// is not written out here. Printing `serde_json::Value`s into memory does not fail (their
/// map keys are strings and writing to a `Vec<u8>` does not fail), so the error arm below is
/// never taken.
/// Canonical tasks read back with [`parse_tasks`] to tasks of the same shape: arrays are
/// printed item by item in order, a map's members in its order, which is theirs, and strings
/// with escapes that `from_str` undoes. Of a number only that it reads back as a number is
/// claimed: without serde_json's `float_roundtrip` feature a float may read back as a
/// neighbouring one, and one close to the largest `f64` may fail to read. Reading also fails
/// past 127 levels of nesting, the outer array counting as one.
#[verifier::external_body]
fn print_tasks(tasks: Vec<Json>) -> (r: String)
    ensures
        r@ == spec_print_tasks(tasks@),
        all_canonical(tasks@) ==> reads_back(r@, tasks@),
{
    let values: Vec<serde_json::Value> = tasks.into_iter().map(json_to_value).collect();
    serde_json::to_string_pretty(&values).unwrap_or_default()
}

/// Why tasks could not be merged.
#[derive(Debug, PartialEq, Eq, Structural)]
pub enum MergeError {
    /// The bundled tasks are not a JSON array.
    BundledTasks,
    /// The existing `tasks.json` is neither blank nor a JSON array.
    ExistingTasks,
}

/// The tasks of the existing `tasks.json`: none when there is no file or it is blank,
/// otherwise what it reads to (`None` when it is not a JSON array).
pub open spec fn existing_tasks(existing: Option<&str>) -> Option<Seq<Json>> {
    match existing {
        Some(s) => if is_blank(s@) {
            Some(Seq::empty())
        } else {
            spec_parse_tasks(s@)
        },
        None => Some(Seq::empty()),
    }
}

/// The tasks that [`merge_tasks`] prints: the bundled tasks `ours_json` merged into those of
/// the existing `tasks.json` (`None` when there is none), as [`merged`] says. Fails when the
/// bundled tasks, then the existing tasks, cannot be read.
pub fn merged_tasks(existing: Option<&str>, ours_json: &str) -> (r: Result<Vec<Json>, MergeError>)
    ensures
        match spec_parse_tasks(ours_json@) {
            None => r == Err::<Vec<Json>, MergeError>(MergeError::BundledTasks),
            Some(ours) => match existing_tasks(existing) {
                None => r == Err::<Vec<Json>, MergeError>(MergeError::ExistingTasks),
                Some(tasks) => r matches Ok(v) && v@ == merged(tasks, ours),
            },
        },
        r matches Ok(v) ==> all_canonical(v@),
{
    let ours = match parse_tasks(ours_json) {
        Some(v) => v,
        None => return Err(MergeError::BundledTasks),
    };
    let tasks = match existing_tasks_text(existing) {
        Some(text) => match parse_tasks(text) {
            Some(v) => v,
            None => return Err(MergeError::ExistingTasks),
        },
        None => Vec::new(),
    };
    proof {
        lemma_merged_canonical(tasks@, ours@);
    }
    Ok(merge_task_lists(tasks, ours))
}

/// Merges the bundled tasks `ours_json` into the text of the existing `tasks.json` (`None`
/// when there is none): an existing task that has the label of a bundled task gives way to
/// it, the other existing tasks stay in their order, and the bundled tasks follow; the
/// result is printed as a JSON array, which reads back to the merged tasks (see
/// [`reads_back`]). Fails when the bundled tasks, then the existing tasks, cannot be read.
pub fn merge_tasks(existing: Option<&str>, ours_json: &str) -> (r: Result<String, MergeError>)
    ensures
        match spec_parse_tasks(ours_json@) {
            None => r == Err::<String, MergeError>(MergeError::BundledTasks),
            Some(ours) => match existing_tasks(existing) {
                None => r == Err::<String, MergeError>(MergeError::ExistingTasks),
                Some(tasks) => r matches Ok(s) && s@ == spec_print_tasks(merged(tasks, ours))
                    && reads_back(s@, merged(tasks, ours)),
            },
        },
{
    let all = match merged_tasks(existing, ours_json) {
        Ok(v) => v,
        Err(e) => return Err(e),
    };
    let text = print_tasks(all);
    // The printed text is read back and held against a second reading of the inputs (the
    // tasks themselves went into the printing). By the contract of `print_tasks` the two
    // always agree; the comparison makes a fault in the conversion to serde_json's values
    // stop here rather than reach a user's tasks file.
    match (parse_tasks(text.as_str()), merged_tasks(existing, ours_json)) {
        (Some(back), Ok(again)) => if !same_json_shapes(&back, &again) {
            return vstd::pervasive::unreached();
        },
        _ => {},
    }
    Ok(text)
}

/// Tasks merged from canonical tasks are canonical.
proof fn lemma_merged_canonical(existing: Seq<Json>, ours: Seq<Json>)
    requires
        all_canonical(existing),
        all_canonical(ours),
    ensures
        all_canonical(merged(existing, ours)),
{
    lemma_kept_members(existing, ours);
    let k = kept(existing, ours);
    let m = merged(existing, ours);
    assert forall|i: int| 0 <= i < m.len() implies is_canonical(#[trigger] m[i]) by {
        if i < k.len() {
            assert(m[i] == k[i]);
            let j = choose|j: int| 0 <= j < existing.len() && existing[j] == k[i];
        } else {
            assert(m[i] == ours[i - k.len()]);
        }
    }
}

} // verus!
