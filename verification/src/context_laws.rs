//! What holds of flattening: a path of keys leads to the same scalar in the
//! nested context and in its flat form.

use vstd::prelude::*;
use crate::context::{
    BindingView, DataContext, DataEntry, DataValue, MAX_NESTING, flat_from, flattened, joined,
    lemma_lookup, lookup,
};

verus! {

/// Whether `key` can stand as one segment of a dotted path: it is not empty
/// and holds no dot.
pub open spec fn is_segment(key: Seq<char>) -> bool {
    key.len() > 0 && forall|k: int| 0 <= k < key.len() ==> #[trigger] key[k] != '.'
}

/// Whether every key of the entries from position `i` on, and of the mappings
/// nested in them, is a segment, and no mapping holds a key twice.
pub open spec fn well_keyed(entries: Vec<DataEntry>, i: int) -> bool
    decreases entries, entries.len() - i,
{
    if i < 0 || i >= entries.len() {
        true
    } else {
        &&& is_segment(entries[i].key@)
        &&& forall|j: int| i < j < entries.len() ==> (#[trigger] entries[j]).key@ != entries[i].key@
        &&& match entries[i].value {
            DataValue::Scalar(_) => true,
            DataValue::Object(inner) => well_keyed(inner.entries, 0),
        }
        &&& well_keyed(entries, i + 1)
    }
}

/// The path that the segments make below `prefix`, joined by dots.
pub open spec fn path_below(prefix: Seq<char>, segments: Seq<Seq<char>>) -> Seq<char>
    decreases segments.len(),
{
    if segments.len() == 0 {
        prefix
    } else {
        path_below(joined(prefix, segments[0]), segments.drop_first())
    }
}

/// The dotted path of the segments.
pub open spec fn dotted(segments: Seq<Seq<char>>) -> Seq<char> {
    path_below(Seq::empty(), segments)
}

/// The scalar that the segments lead to, key by key, through the entries from
/// position `i` on and the mappings nested in them, if they lead to one.
pub open spec fn resolved_from(entries: Vec<DataEntry>, i: int, segments: Seq<Seq<char>>) -> Option<
    Seq<char>,
>
    decreases segments.len(), entries.len() - i,
{
    if segments.len() == 0 || i < 0 || i >= entries.len() {
        None
    } else if entries[i].key@ == segments[0] {
        match entries[i].value {
            DataValue::Scalar(text) => if segments.len() == 1 {
                Some(text@)
            } else {
                None
            },
            DataValue::Object(inner) => if segments.len() == 1 {
                None
            } else {
                resolved_from(inner.entries, 0, segments.drop_first())
            },
        }
    } else {
        resolved_from(entries, i + 1, segments)
    }
}

/// The scalar that the segments lead to in a context.
pub open spec fn resolved(context: DataContext, segments: Seq<Seq<char>>) -> Option<Seq<char>> {
    resolved_from(context.entries, 0, segments)
}

/// Whether `path` is `head`, or `head` followed by a dot and more.
pub open spec fn extends(path: Seq<char>, head: Seq<char>) -> bool {
    path == head || (path.len() > head.len() && path.subrange(0, head.len() as int) == head
        && path[head.len() as int] == '.')
}

/// What `prefix` and a dot, if any, put before a key.
pub open spec fn base(prefix: Seq<char>) -> Seq<char> {
    if prefix.len() == 0 {
        prefix
    } else {
        prefix + seq!['.']
    }
}

/// Looking a path up in two lists of bindings, one after the other, finds
/// what the first list binds, and else what the second binds.
pub proof fn lemma_lookup_concat(a: Seq<BindingView>, b: Seq<BindingView>, path: Seq<char>)
    ensures
        lookup(a + b, path) == match lookup(a, path) {
            Some(v) => Some(v),
            None => lookup(b, path),
        },
    decreases a.len(),
{
    if a.len() == 0 {
        assert(a + b == b);
    } else {
        assert((a + b)[0] == a[0]);
        assert((a + b).drop_first() == a.drop_first() + b);
        if a[0].path != path {
            lemma_lookup_concat(a.drop_first(), b, path);
        }
    }
}

/// A path that goes on below a longer head goes on below the shorter one.
pub proof fn lemma_extends_joined(path: Seq<char>, head: Seq<char>, key: Seq<char>)
    requires
        head.len() > 0,
        extends(path, joined(head, key)),
    ensures
        extends(path, head),
        path.len() > head.len(),
{
    let longer = joined(head, key);
    assert(longer == head + seq!['.'] + key);
    assert(longer.subrange(0, head.len() as int) == head);
    assert(longer[head.len() as int] == '.');
    assert(path.subrange(0, longer.len() as int).subrange(0, head.len() as int) == path.subrange(
        0,
        head.len() as int,
    ));
}

/// The path below a prefix goes on below the prefix.
pub proof fn lemma_path_below_extends(prefix: Seq<char>, segments: Seq<Seq<char>>)
    requires
        prefix.len() > 0,
    ensures
        extends(path_below(prefix, segments), prefix),
        segments.len() > 0 ==> path_below(prefix, segments).len() > prefix.len(),
    decreases segments.len(),
{
    if segments.len() > 0 {
        let next = joined(prefix, segments[0]);
        lemma_path_below_extends(next, segments.drop_first());
        lemma_extends_joined(path_below(prefix, segments), prefix, segments[0]);
    }
}

/// Two keys without dots that a path goes on below, under one prefix, are one
/// key.
pub proof fn lemma_one_head(path: Seq<char>, prefix: Seq<char>, a: Seq<char>, b: Seq<char>)
    requires
        is_segment(a),
        is_segment(b),
        extends(path, joined(prefix, a)),
        extends(path, joined(prefix, b)),
    ensures
        a == b,
{
    let front = base(prefix);
    let n = front.len() as int;
    assert(joined(prefix, a) == front + a);
    assert(joined(prefix, b) == front + b);
    let pa = front + a;
    let pb = front + b;
    if a.len() < b.len() {
        assert(path.len() >= pb.len());
        assert(path.subrange(0, pb.len() as int) == pb);
        assert(path[n + a.len()] == path.subrange(0, pb.len() as int)[n + a.len()]);
        assert(pb[n + a.len()] == b[a.len() as int]);
        assert(path != pa);
        assert(false);
    }
    if b.len() < a.len() {
        assert(path.len() >= pa.len());
        assert(path.subrange(0, pa.len() as int) == pa);
        assert(path[n + b.len()] == path.subrange(0, pa.len() as int)[n + b.len()]);
        assert(pa[n + b.len()] == a[b.len() as int]);
        assert(path != pb);
        assert(false);
    }
    assert(path.subrange(0, pa.len() as int) == pa);
    assert(path.subrange(0, pb.len() as int) == pb);
    assert forall|k: int| 0 <= k < a.len() implies a[k] == b[k] by {
        assert(pa[n + k] == a[k]);
        assert(pb[n + k] == b[k]);
    }
    assert(a =~= b);
}

/// Every path that the entries from position `i` on bind goes on below the
/// key of one of them.
pub proof fn lemma_bound_paths(entries: Vec<DataEntry>, i: int, prefix: Seq<char>, depth: nat, k: int)
    requires
        0 <= i <= entries.len(),
        well_keyed(entries, i),
        0 <= k < flat_from(entries, i, prefix, depth).len(),
    ensures
        exists|j: int|
            i <= j < entries.len() && extends(
                flat_from(entries, i, prefix, depth)[k].path,
                joined(prefix, (#[trigger] entries[j]).key@),
            ),
    decreases entries, entries.len() - i,
{
    let all = flat_from(entries, i, prefix, depth);
    let rest = flat_from(entries, i + 1, prefix, depth);
    let head_len = all.len() - rest.len();
    let here = joined(prefix, entries[i].key@);
    if k < head_len {
        match entries[i].value {
            DataValue::Scalar(text) => {
                assert(all[k].path == here);
            },
            DataValue::Object(inner) => {
                let head = flat_from(inner.entries, 0, here, depth + 1);
                assert(all[k] == head[k]);
                lemma_bound_paths(inner.entries, 0, here, depth + 1, k);
                let j = choose|j: int|
                    0 <= j < inner.entries.len() && extends(
                        head[k].path,
                        joined(here, (#[trigger] inner.entries[j]).key@),
                    );
                lemma_extends_joined(head[k].path, here, inner.entries[j].key@);
            },
        }
        assert(extends(all[k].path, joined(prefix, entries[i].key@)));
    } else {
        assert(all[k] == rest[k - head_len]);
        lemma_bound_paths(entries, i + 1, prefix, depth, k - head_len);
    }
}

/// A path that goes on below a key that none of the entries has is not bound
/// by them.
pub proof fn lemma_unbound(
    entries: Vec<DataEntry>,
    i: int,
    prefix: Seq<char>,
    depth: nat,
    path: Seq<char>,
    key: Seq<char>,
)
    requires
        0 <= i <= entries.len(),
        well_keyed(entries, i),
        is_segment(key),
        extends(path, joined(prefix, key)),
        forall|j: int| i <= j < entries.len() ==> (#[trigger] entries[j]).key@ != key,
    ensures
        lookup(flat_from(entries, i, prefix, depth), path) is None,
{
    let all = flat_from(entries, i, prefix, depth);
    lemma_lookup(all, path);
    if lookup(all, path) is Some {
        let b = BindingView { path: path, value: lookup(all, path)->Some_0 };
        let k = choose|k: int| 0 <= k < all.len() && all[k] == b;
        lemma_bound_paths(entries, i, prefix, depth, k);
        let j = choose|j: int|
            i <= j < entries.len() && extends(all[k].path, joined(prefix, (#[trigger] entries[j]).key@));
        lemma_well_keyed_at(entries, i, j);
        lemma_one_head(path, prefix, entries[j].key@, key);
    }
}

/// What `well_keyed` says of the first entry, it says of every entry.
pub proof fn lemma_well_keyed_at(entries: Vec<DataEntry>, i: int, j: int)
    requires
        0 <= i <= j < entries.len(),
        well_keyed(entries, i),
    ensures
        well_keyed(entries, j),
        is_segment(entries[j].key@),
    decreases j - i,
{
    if i < j {
        lemma_well_keyed_at(entries, i + 1, j);
    }
}

/// In a context whose keys are segments, each once in its mapping, a dotted
/// path is bound in the flat form to the very scalar that its segments lead to
/// key by key, and is not bound where they lead to none. This holds of paths
/// that stay within the depth that is read.
pub proof fn lemma_flat_form_resolves(
    entries: Vec<DataEntry>,
    i: int,
    prefix: Seq<char>,
    depth: nat,
    segments: Seq<Seq<char>>,
)
    requires
        0 <= i <= entries.len(),
        well_keyed(entries, i),
        segments.len() >= 1,
        forall|k: int| 0 <= k < segments.len() ==> is_segment(#[trigger] segments[k]),
        depth + segments.len() <= MAX_NESTING + 1,
    ensures
        lookup(flat_from(entries, i, prefix, depth), path_below(prefix, segments)) == resolved_from(
            entries,
            i,
            segments,
        ),
    decreases segments.len(), entries.len() - i,
{
    let path = path_below(prefix, segments);
    let first = segments[0];
    let more = segments.drop_first();
    let target = joined(prefix, first);
    assert(is_segment(first));
    assert(target.len() > 0);
    lemma_path_below_extends(target, more);
    assert(extends(path, target));
    if i < entries.len() {
        let key = entries[i].key@;
        let here = joined(prefix, key);
        let rest = flat_from(entries, i + 1, prefix, depth);
        let head = match entries[i].value {
            DataValue::Scalar(text) => seq![BindingView { path: here, value: text@ }],
            DataValue::Object(inner) => if depth < MAX_NESTING {
                flat_from(inner.entries, 0, here, depth + 1)
            } else {
                Seq::empty()
            },
        };
        assert(flat_from(entries, i, prefix, depth) == head + rest);
        lemma_lookup_concat(head, rest, path);
        if key == first {
            assert forall|j: int| i + 1 <= j < entries.len() implies (#[trigger] entries[j]).key@
                != first by {}
            lemma_unbound(entries, i + 1, prefix, depth, path, first);
            match entries[i].value {
                DataValue::Scalar(text) => {
                    assert(head.drop_first().len() == 0);
                    if segments.len() == 1 {
                        assert(more.len() == 0);
                        assert(path == here);
                    } else {
                        assert(path.len() > here.len());
                        assert(lookup(head.drop_first(), path) is None);
                    }
                },
                DataValue::Object(inner) => {
                    if segments.len() == 1 {
                        assert(more.len() == 0);
                        assert(path == here);
                        lemma_lookup(head, path);
                        if lookup(head, path) is Some {
                            let b = BindingView { path: path, value: lookup(head, path)->Some_0 };
                            let k = choose|k: int| 0 <= k < head.len() && head[k] == b;
                            lemma_bound_paths(inner.entries, 0, here, depth + 1, k);
                            let j = choose|j: int|
                                0 <= j < inner.entries.len() && extends(
                                    head[k].path,
                                    joined(here, (#[trigger] inner.entries[j]).key@),
                                );
                            lemma_extends_joined(path, here, inner.entries[j].key@);
                        }
                    } else {
                        assert forall|k: int| 0 <= k < more.len() implies is_segment(
                            #[trigger] more[k],
                        ) by {
                            assert(more[k] == segments[k + 1]);
                        }
                        lemma_flat_form_resolves(inner.entries, 0, here, depth + 1, more);
                    }
                },
            }
        } else {
            lemma_lookup(head, path);
            if lookup(head, path) is Some {
                let b = BindingView { path: path, value: lookup(head, path)->Some_0 };
                let k = choose|k: int| 0 <= k < head.len() && head[k] == b;
                match entries[i].value {
                    DataValue::Scalar(text) => {},
                    DataValue::Object(inner) => {
                        lemma_bound_paths(inner.entries, 0, here, depth + 1, k);
                        let j = choose|j: int|
                            0 <= j < inner.entries.len() && extends(
                                head[k].path,
                                joined(here, (#[trigger] inner.entries[j]).key@),
                            );
                        lemma_extends_joined(path, here, inner.entries[j].key@);
                    },
                }
                assert(extends(path, here));
                lemma_one_head(path, prefix, key, first);
            }
            lemma_flat_form_resolves(entries, i + 1, prefix, depth, segments);
        }
    }
}

/// In a context whose keys are segments, each once in its mapping, a dotted
/// path of at most `MAX_NESTING + 1` segments is bound in the flat form to
/// the scalar that its segments lead to key by key.
pub proof fn lemma_flattened_resolves(context: DataContext, segments: Seq<Seq<char>>)
    requires
        well_keyed(context.entries, 0),
        1 <= segments.len() <= MAX_NESTING + 1,
        forall|k: int| 0 <= k < segments.len() ==> is_segment(#[trigger] segments[k]),
    ensures
        lookup(flattened(context), dotted(segments)) == resolved(context, segments),
{
    lemma_flat_form_resolves(context.entries, 0, Seq::empty(), 0, segments);
}

} // verus!
