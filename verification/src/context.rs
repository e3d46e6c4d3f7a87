//! The data context: a nested mapping from keys to scalars, and its flat form,
//! a list of bindings from dot-separated paths to values.

use vstd::prelude::*;
use crate::text::{append_chars, chars_of, same_chars};

verus! {

/// One entry of a flattened context: the full dot-separated path of a scalar
/// and the scalar's text.
#[derive(Debug, Clone, PartialEq, Eq)]
pub struct Binding {
    pub path: Vec<char>,
    pub value: Vec<char>,
}

/// A binding as a pair of character sequences.
pub struct BindingView {
    pub path: Seq<char>,
    pub value: Seq<char>,
}

impl View for Binding {
    type V = BindingView;

    open spec fn view(&self) -> BindingView {
        BindingView { path: self.path@, value: self.value@ }
    }
}

/// The bindings of a vector, in order.
pub open spec fn bindings_view(map: Seq<Binding>) -> Seq<BindingView> {
    Seq::new(map.len(), |i: int| map[i]@)
}

/// The value of the first binding of `path`, if `path` is bound.
pub open spec fn lookup(map: Seq<BindingView>, path: Seq<char>) -> Option<Seq<char>>
    decreases map.len(),
{
    if map.len() == 0 {
        None
    } else if map[0].path == path {
        Some(map[0].value)
    } else {
        lookup(map.drop_first(), path)
    }
}

/// What a placeholder with the given path is replaced by: the bound value, or
/// nothing where the path is not bound.
pub open spec fn value_of(map: Seq<BindingView>, path: Seq<char>) -> Seq<char> {
    match lookup(map, path) {
        Some(v) => v,
        None => Seq::empty(),
    }
}

/// Looks `path` up in `map`: the position of its first binding.
pub fn find_binding(map: &Vec<Binding>, path: &Vec<char>) -> (found: Option<usize>)
    ensures
        match found {
            Some(k) => k < map.len() && lookup(bindings_view(map@), path@) == Some(map@[k as int].value@),
            None => lookup(bindings_view(map@), path@) is None,
        },
{
    let ghost all = bindings_view(map@);
    let mut i: usize = 0;
    assert(all.skip(0) == all);
    while i < map.len()
        invariant
            i <= map.len(),
            all == bindings_view(map@),
            lookup(all, path@) == lookup(all.skip(i as int), path@),
        decreases map.len() - i,
    {
        assert(all.skip(i as int)[0] == map@[i as int]@);
        assert(all.skip(i as int).drop_first() == all.skip(i + 1));
        if same_chars(&map[i].path, path) {
            return Some(i);
        }
        i += 1;
    }
    assert(all.skip(i as int).len() == 0);
    None
}

/// The deepest nested mapping that is searched for scalars: a mapping that
/// lies below more keys than this is passed over.
pub const MAX_NESTING: usize = 64;

/// What a key of the context maps to.
#[derive(Debug, PartialEq, Eq)]
pub enum DataValue {
    /// A scalar, by its text.
    Scalar(String),
    /// A nested mapping.
    Object(DataContext),
}

/// A key of the context and what it maps to.
#[derive(Debug, PartialEq, Eq)]
pub struct DataEntry {
    pub key: String,
    pub value: DataValue,
}

/// A mapping from keys to scalars and nested mappings, in the order in which
/// the keys were given.
#[derive(Debug, PartialEq, Eq)]
pub struct DataContext {
    pub entries: Vec<DataEntry>,
}

/// The path of `key` below `prefix`: the two joined by a dot, or `key` alone
/// where `prefix` is empty.
pub open spec fn joined(prefix: Seq<char>, key: Seq<char>) -> Seq<char> {
    if prefix.len() == 0 {
        key
    } else {
        prefix + seq!['.'] + key
    }
}

/// The bindings that the entries from position `i` on give, each path
/// starting with `prefix`. `depth` is the number of keys above these entries.
pub open spec fn flat_from(entries: Vec<DataEntry>, i: int, prefix: Seq<char>, depth: nat) -> Seq<BindingView>
    decreases entries, entries.len() - i,
{
    if i < 0 || i >= entries.len() {
        Seq::empty()
    } else {
        let path = joined(prefix, entries[i].key@);
        let head = match entries[i].value {
            DataValue::Scalar(text) => seq![BindingView { path: path, value: text@ }],
            DataValue::Object(inner) => if depth < MAX_NESTING {
                flat_from(inner.entries, 0, path, depth + 1)
            } else {
                Seq::empty()
            },
        };
        head + flat_from(entries, i + 1, prefix, depth)
    }
}

/// The flat form of a context: one binding for each scalar, in the order of
/// the entries, nested ones in place of the key that holds them.
pub open spec fn flattened(context: DataContext) -> Seq<BindingView> {
    flat_from(context.entries, 0, Seq::empty(), 0)
}

/// The first binding of a path is the one that `lookup` gives.
pub proof fn lemma_lookup_first(map: Seq<BindingView>, k: int)
    requires
        0 <= k < map.len(),
        forall|j: int| 0 <= j < k ==> (#[trigger] map[j]).path != map[k].path,
    ensures
        lookup(map, map[k].path) == Some(map[k].value),
    decreases k,
{
    if k > 0 {
        let rest = map.drop_first();
        assert(rest[k - 1] == map[k]);
        assert forall|j: int| 0 <= j < k - 1 implies (#[trigger] rest[j]).path != rest[k - 1].path by {
            assert(rest[j] == map[j + 1]);
        }
        assert(map[0].path != map[k].path);
        lemma_lookup_first(rest, k - 1);
    }
}

/// What `lookup` gives is the value of a binding of the path; where it gives
/// nothing, no binding has the path.
pub proof fn lemma_lookup(map: Seq<BindingView>, path: Seq<char>)
    ensures
        match lookup(map, path) {
            Some(value) => map.contains(BindingView { path: path, value: value }),
            None => forall|k: int| 0 <= k < map.len() ==> (#[trigger] map[k]).path != path,
        },
    decreases map.len(),
{
    if map.len() > 0 {
        if map[0].path == path {
            assert(map[0] == (BindingView { path: path, value: map[0].value }));
        } else {
            let rest = map.drop_first();
            lemma_lookup(rest, path);
            match lookup(rest, path) {
                Some(value) => {
                    let b = BindingView { path: path, value: value };
                    let k = choose|k: int| 0 <= k < rest.len() && rest[k] == b;
                    assert(map[k + 1] == b);
                },
                None => {
                    assert forall|k: int| 0 <= k < map.len() implies (#[trigger] map[k]).path != path by {
                        if k > 0 {
                            assert(rest[k - 1] == map[k]);
                        }
                    }
                },
            }
        }
    }
}

/// A scalar among the entries is bound under its key, joined to the path of
/// the mapping that holds it.
pub proof fn lemma_scalar_is_bound(entries: Vec<DataEntry>, i: int, k: int, prefix: Seq<char>, depth: nat)
    requires
        0 <= i <= k < entries.len(),
        entries[k].value is Scalar,
    ensures
        flat_from(entries, i, prefix, depth).contains(
            BindingView { path: joined(prefix, entries[k].key@), value: entries[k].value->Scalar_0@ },
        ),
    decreases k - i,
{
    let all = flat_from(entries, i, prefix, depth);
    let b = BindingView { path: joined(prefix, entries[k].key@), value: entries[k].value->Scalar_0@ };
    if i == k {
        assert(all[0] == b);
    } else {
        lemma_scalar_is_bound(entries, i + 1, k, prefix, depth);
        let rest = flat_from(entries, i + 1, prefix, depth);
        let j = choose|j: int| 0 <= j < rest.len() && rest[j] == b;
        assert(all[all.len() - rest.len() + j] == b);
    }
}

/// What a nested mapping binds, the mapping that holds it binds too, unless
/// the nested mapping lies too deep.
pub proof fn lemma_nested_is_bound(
    entries: Vec<DataEntry>,
    i: int,
    k: int,
    prefix: Seq<char>,
    depth: nat,
    binding: BindingView,
)
    requires
        0 <= i <= k < entries.len(),
        depth < MAX_NESTING,
        entries[k].value matches DataValue::Object(inner) && flat_from(
            inner.entries,
            0,
            joined(prefix, entries[k].key@),
            depth + 1,
        ).contains(binding),
    ensures
        flat_from(entries, i, prefix, depth).contains(binding),
    decreases k - i,
{
    let all = flat_from(entries, i, prefix, depth);
    if i == k {
        let head = flat_from(entries[k].value->Object_0.entries, 0, joined(prefix, entries[k].key@), depth + 1);
        let j = choose|j: int| 0 <= j < head.len() && head[j] == binding;
        assert(all[j] == binding);
    } else {
        lemma_nested_is_bound(entries, i + 1, k, prefix, depth, binding);
        let rest = flat_from(entries, i + 1, prefix, depth);
        let j = choose|j: int| 0 <= j < rest.len() && rest[j] == binding;
        assert(all[all.len() - rest.len() + j] == binding);
    }
}

/// A mapping that is being read: its entries, the position of the next one,
/// the path of the key that holds the mapping, and the number of keys above
/// its entries.
struct Frame<'a> {
    entries: &'a Vec<DataEntry>,
    next: usize,
    prefix: Vec<char>,
    depth: usize,
}

/// The bindings that the mappings on the stack still have to give, the top
/// of the stack first.
spec fn pending(stack: Seq<Frame>) -> Seq<BindingView>
    decreases stack.len(),
{
    if stack.len() == 0 {
        Seq::empty()
    } else {
        let top = stack.last();
        flat_from(*top.entries, top.next as int, top.prefix@, top.depth as nat) + pending(
            stack.drop_last(),
        )
    }
}

/// A bound on the steps that reading the entries from position `i` on takes.
spec fn work_from(entries: Vec<DataEntry>, i: int) -> nat
    decreases entries, entries.len() - i,
{
    if i < 0 || i >= entries.len() {
        0
    } else {
        let inner = match entries[i].value {
            DataValue::Scalar(_) => 0,
            DataValue::Object(inner) => work_from(inner.entries, 0),
        };
        2 + inner + work_from(entries, i + 1)
    }
}

/// A bound on the steps that the mappings on the stack still take.
spec fn pending_work(stack: Seq<Frame>) -> nat
    decreases stack.len(),
{
    if stack.len() == 0 {
        0
    } else {
        1 + work_from(*stack.last().entries, stack.last().next as int) + pending_work(
            stack.drop_last(),
        )
    }
}

/// No mapping on the stack lies deeper than the limit.
spec fn within_limit(stack: Seq<Frame>) -> bool {
    forall|k: int| 0 <= k < stack.len() ==> (#[trigger] stack[k]).depth <= MAX_NESTING
}

/// The path of `key` below `prefix`.
pub fn join_path(prefix: &Vec<char>, key: &str) -> (path: Vec<char>)
    ensures
        path@ == joined(prefix@, key@),
{
    let key_chars = chars_of(key);
    if prefix.len() == 0 {
        key_chars
    } else {
        let mut path: Vec<char> = Vec::new();
        append_chars(&mut path, prefix);
        path.push('.');
        append_chars(&mut path, &key_chars);
        assert(path@ == prefix@ + seq!['.'] + key@);
        path
    }
}

/// Flattens a context. Nested mappings are read with a stack of their own,
/// which never holds more than `MAX_NESTING + 1` mappings.
pub fn flatten(context: &DataContext) -> (map: Vec<Binding>)
    ensures
        bindings_view(map@) == flattened(*context),
{
    let mut map: Vec<Binding> = Vec::new();
    let mut stack: Vec<Frame> = Vec::new();
    stack.push(Frame { entries: &context.entries, next: 0, prefix: Vec::new(), depth: 0 });
    proof {
        assert(stack@.drop_last() == Seq::<Frame>::empty());
        assert(pending(stack@) == flattened(*context) + pending(Seq::<Frame>::empty()));
        assert(bindings_view(map@) == Seq::<BindingView>::empty());
    }
    while stack.len() > 0
        invariant
            within_limit(stack@),
            bindings_view(map@) + pending(stack@) == flattened(*context),
        decreases pending_work(stack@),
    {
        let ghost before = stack@;
        let ghost below = stack@.drop_last();
        let ghost done = bindings_view(map@);
        let frame = stack.pop().unwrap();
        let entries = frame.entries;
        let next = frame.next;
        let depth = frame.depth;
        let ghost prefix = frame.prefix@;
        let ghost here = flat_from(*entries, next as int, prefix, depth as nat);
        let ghost rest = flat_from(*entries, next + 1, prefix, depth as nat);
        assert(stack@ == below);
        assert(frame == before.last());
        assert(pending(before) == here + pending(below));
        assert(pending_work(before) == 1 + work_from(*entries, next as int) + pending_work(below));
        if next < entries.len() {
            let entry = &entries[next];
            let path = join_path(&frame.prefix, entry.key.as_str());
            match &entry.value {
                DataValue::Scalar(text) => {
                    let binding = Binding { path: path, value: chars_of(text.as_str()) };
                    stack.push(Frame { entries: entries, next: next + 1, prefix: frame.prefix, depth: depth });
                    proof {
                        assert(stack@.drop_last() == below);
                        assert(pending(stack@) == rest + pending(below));
                        assert(here == seq![binding@] + rest);
                        assert(bindings_view(map@.push(binding)) == done.push(binding@));
                        assert(done.push(binding@) + (rest + pending(below)) == done + ((seq![
                            binding@,
                        ] + rest) + pending(below)));
                    }
                    map.push(binding);
                },
                DataValue::Object(inner) => {
                    stack.push(Frame { entries: entries, next: next + 1, prefix: frame.prefix, depth: depth });
                    let ghost middle = stack@;
                    assert(middle.drop_last() == below);
                    assert(pending(middle) == rest + pending(below));
                    assert(pending_work(middle) == 1 + work_from(*entries, next + 1) + pending_work(below));
                    if depth < MAX_NESTING {
                        stack.push(Frame { entries: &inner.entries, next: 0, prefix: path, depth: depth + 1 });
                        proof {
                            let head = flat_from(inner.entries, 0, path@, (depth + 1) as nat);
                            assert(stack@.drop_last() == middle);
                            assert(pending(stack@) == head + pending(middle));
                            assert(here == head + rest);
                            assert(head + (rest + pending(below)) == (head + rest) + pending(below));
                        }
                    } else {
                        proof {
                            assert(here == Seq::<BindingView>::empty() + rest);
                            assert(Seq::<BindingView>::empty() + rest == rest);
                        }
                    }
                },
            }
        } else {
            proof {
                assert(here == Seq::<BindingView>::empty());
                assert(Seq::<BindingView>::empty() + pending(below) == pending(below));
            }
        }
    }
    assert(bindings_view(map@) + Seq::<BindingView>::empty() == bindings_view(map@));
    map
}

} // verus!
