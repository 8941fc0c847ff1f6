use vstd::prelude::*;
use crate::kind::SyntaxKind;
use crate::tree::{GreenElement, GreenNode, GreenToken};

verus! {

/// The first token of kind `k` among `cs[i..]`.
pub open spec fn first_token_from(cs: Seq<GreenElement>, k: SyntaxKind, i: int) -> Option<GreenToken>
    decreases cs.len() - i,
{
    if i < 0 || i >= cs.len() {
        None
    } else {
        match cs[i] {
            GreenElement::Token(t) => if t.kind == k {
                Some(t)
            } else {
                first_token_from(cs, k, i + 1)
            },
            GreenElement::Node(_) => first_token_from(cs, k, i + 1),
        }
    }
}

/// The first node of kind `k` among `cs[i..]`.
pub open spec fn first_node_from(cs: Seq<GreenElement>, k: SyntaxKind, i: int) -> Option<GreenNode>
    decreases cs.len() - i,
{
    if i < 0 || i >= cs.len() {
        None
    } else {
        match cs[i] {
            GreenElement::Node(n) => if n.kind == k {
                Some(n)
            } else {
                first_node_from(cs, k, i + 1)
            },
            GreenElement::Token(_) => first_node_from(cs, k, i + 1),
        }
    }
}

/// The index of the first token of kind `k` among `cs[i..]`, or `cs.len()`.
pub open spec fn first_token_index_from(cs: Seq<GreenElement>, k: SyntaxKind, i: int) -> int
    decreases cs.len() - i,
{
    if i < 0 || i >= cs.len() {
        cs.len() as int
    } else {
        match cs[i] {
            GreenElement::Token(t) => if t.kind == k {
                i
            } else {
                first_token_index_from(cs, k, i + 1)
            },
            GreenElement::Node(_) => first_token_index_from(cs, k, i + 1),
        }
    }
}

/// The last token of kind `k` among `cs[..n]`.
pub open spec fn last_token_upto(cs: Seq<GreenElement>, k: SyntaxKind, n: int) -> Option<GreenToken>
    decreases n,
{
    if n <= 0 || n > cs.len() {
        None
    } else {
        match cs[n - 1] {
            GreenElement::Token(t) => if t.kind == k {
                Some(t)
            } else {
                last_token_upto(cs, k, n - 1)
            },
            GreenElement::Node(_) => last_token_upto(cs, k, n - 1),
        }
    }
}

/// The last node of kind `k` among `cs[..n]`.
pub open spec fn last_node_upto(cs: Seq<GreenElement>, k: SyntaxKind, n: int) -> Option<GreenNode>
    decreases n,
{
    if n <= 0 || n > cs.len() {
        None
    } else {
        match cs[n - 1] {
            GreenElement::Node(m) => if m.kind == k {
                Some(m)
            } else {
                last_node_upto(cs, k, n - 1)
            },
            GreenElement::Token(_) => last_node_upto(cs, k, n - 1),
        }
    }
}

/// How many elements of kind `k` there are among `cs[..n]`.
pub open spec fn count_kind_upto(cs: Seq<GreenElement>, k: SyntaxKind, n: int) -> nat
    decreases n,
{
    if n <= 0 || n > cs.len() {
        0
    } else {
        count_kind_upto(cs, k, n - 1) + if crate::tree::elem_kind(cs[n - 1]) == k {
            1nat
        } else {
            0nat
        }
    }
}

/// The tokens of kind `k` among `cs[..n]`, in order.
pub open spec fn tokens_of_kind_upto(cs: Seq<GreenElement>, k: SyntaxKind, n: int) -> Seq<GreenToken>
    decreases n,
{
    if n <= 0 || n > cs.len() {
        Seq::empty()
    } else {
        match cs[n - 1] {
            GreenElement::Token(t) => if t.kind == k {
                tokens_of_kind_upto(cs, k, n - 1).push(t)
            } else {
                tokens_of_kind_upto(cs, k, n - 1)
            },
            GreenElement::Node(_) => tokens_of_kind_upto(cs, k, n - 1),
        }
    }
}

/// The nodes of kind `k` among `cs[..n]`, in order.
pub open spec fn nodes_of_kind_upto(cs: Seq<GreenElement>, k: SyntaxKind, n: int) -> Seq<GreenNode>
    decreases n,
{
    if n <= 0 || n > cs.len() {
        Seq::empty()
    } else {
        match cs[n - 1] {
            GreenElement::Node(m) => if m.kind == k {
                nodes_of_kind_upto(cs, k, n - 1).push(m)
            } else {
                nodes_of_kind_upto(cs, k, n - 1)
            },
            GreenElement::Token(_) => nodes_of_kind_upto(cs, k, n - 1),
        }
    }
}

pub open spec fn first_token(n: GreenNode, k: SyntaxKind) -> Option<GreenToken> {
    first_token_from(n.children@, k, 0)
}

pub open spec fn first_node(n: GreenNode, k: SyntaxKind) -> Option<GreenNode> {
    first_node_from(n.children@, k, 0)
}

/// The index of the first child of `parent` that is a token of kind `kind`.
pub fn token_index(parent: &GreenNode, kind: SyntaxKind) -> (r: usize)
    ensures
        r == first_token_index_from(parent.children@, kind, 0),
        r <= parent.children@.len(),
{
    let cs = &parent.children;
    let mut i: usize = 0;
    while i < cs.len()
        invariant
            cs@ == parent.children@,
            i <= cs@.len(),
            first_token_index_from(cs@, kind, 0) == first_token_index_from(cs@, kind, i as int),
        decreases cs@.len() - i,
    {
        match &cs[i] {
            GreenElement::Token(t) => {
                if t.kind == kind {
                    return i;
                }
            },
            GreenElement::Node(_) => {},
        }
        i = i + 1;
    }
    i
}

/// The first child of `parent` that is a token of kind `kind`.
pub fn child_token<'a>(parent: &'a GreenNode, kind: SyntaxKind) -> (r: Option<&'a GreenToken>)
    ensures
        match r {
            Some(t) => first_token(*parent, kind) == Some(*t),
            None => first_token(*parent, kind) is None,
        },
{
    let cs = &parent.children;
    let mut i: usize = 0;
    while i < cs.len()
        invariant
            cs@ == parent.children@,
            i <= cs@.len(),
            first_token_from(cs@, kind, 0) == first_token_from(cs@, kind, i as int),
        decreases cs@.len() - i,
    {
        match &cs[i] {
            GreenElement::Token(t) => {
                if t.kind == kind {
                    return Some(t);
                }
            },
            GreenElement::Node(_) => {},
        }
        i = i + 1;
    }
    None
}

/// The first child of `parent` that is a node of kind `kind`.
pub fn child_node<'a>(parent: &'a GreenNode, kind: SyntaxKind) -> (r: Option<&'a GreenNode>)
    ensures
        match r {
            Some(n) => first_node(*parent, kind) == Some(*n),
            None => first_node(*parent, kind) is None,
        },
{
    let cs = &parent.children;
    let mut i: usize = 0;
    while i < cs.len()
        invariant
            cs@ == parent.children@,
            i <= cs@.len(),
            first_node_from(cs@, kind, 0) == first_node_from(cs@, kind, i as int),
        decreases cs@.len() - i,
    {
        match &cs[i] {
            GreenElement::Node(n) => {
                if n.kind == kind {
                    return Some(n);
                }
            },
            GreenElement::Token(_) => {},
        }
        i = i + 1;
    }
    None
}

/// The last child of `parent` that is a token of kind `kind`.
pub fn last_token<'a>(parent: &'a GreenNode, kind: SyntaxKind) -> (r: Option<&'a GreenToken>)
    ensures
        match r {
            Some(t) => last_token_upto(parent.children@, kind, parent.children@.len() as int)
                == Some(*t),
            None => last_token_upto(parent.children@, kind, parent.children@.len() as int) is None,
        },
{
    let cs = &parent.children;
    let mut i: usize = cs.len();
    while i > 0
        invariant
            cs@ == parent.children@,
            i <= cs@.len(),
            last_token_upto(cs@, kind, cs@.len() as int) == last_token_upto(cs@, kind, i as int),
        decreases i,
    {
        match &cs[i - 1] {
            GreenElement::Token(t) => {
                if t.kind == kind {
                    return Some(t);
                }
            },
            GreenElement::Node(_) => {},
        }
        i = i - 1;
    }
    None
}

/// The last child of `parent` that is a node of kind `kind`.
pub fn last_child<'a>(parent: &'a GreenNode, kind: SyntaxKind) -> (r: Option<&'a GreenNode>)
    ensures
        match r {
            Some(n) => last_node_upto(parent.children@, kind, parent.children@.len() as int)
                == Some(*n),
            None => last_node_upto(parent.children@, kind, parent.children@.len() as int) is None,
        },
{
    let cs = &parent.children;
    let mut i: usize = cs.len();
    while i > 0
        invariant
            cs@ == parent.children@,
            i <= cs@.len(),
            last_node_upto(cs@, kind, cs@.len() as int) == last_node_upto(cs@, kind, i as int),
        decreases i,
    {
        match &cs[i - 1] {
            GreenElement::Node(n) => {
                if n.kind == kind {
                    return Some(n);
                }
            },
            GreenElement::Token(_) => {},
        }
        i = i - 1;
    }
    None
}

/// The number of `BLANK_LINE` tokens among the children of `parent`.
pub fn blank_lines(parent: &GreenNode) -> (r: usize)
    ensures
        r == count_kind_upto(parent.children@, SyntaxKind::BLANK_LINE, parent.children@.len() as int),
{
    let cs = &parent.children;
    let mut n: usize = 0;
    let mut i: usize = 0;
    while i < cs.len()
        invariant
            cs@ == parent.children@,
            i <= cs@.len(),
            n == count_kind_upto(cs@, SyntaxKind::BLANK_LINE, i as int),
            n <= i,
        decreases cs@.len() - i,
    {
        if cs[i].kind() == SyntaxKind::BLANK_LINE {
            n = n + 1;
        }
        i = i + 1;
    }
    n
}

/// The element as a token, where it is a token of kind `kind`.
pub fn filter_token<'a>(kind: SyntaxKind, elem: &'a GreenElement) -> (r: Option<&'a GreenToken>)
    ensures
        match r {
            Some(t) => *elem == GreenElement::Token(*t) && t.kind == kind,
            None => !(elem matches GreenElement::Token(t) && t.kind == kind),
        },
{
    match elem {
        GreenElement::Token(t) => if t.kind == kind {
            Some(t)
        } else {
            None
        },
        GreenElement::Node(_) => None,
    }
}

/// The tokens of kind `kind` among the children of `parent`, in order.
pub fn child_tokens<'a>(parent: &'a GreenNode, kind: SyntaxKind) -> (r: Vec<&'a GreenToken>)
    ensures
        r@.len() == tokens_of_kind_upto(parent.children@, kind, parent.children@.len() as int).len(),
        forall|i: int|
            0 <= i < r@.len() ==> *r@[i] == #[trigger] tokens_of_kind_upto(
                parent.children@,
                kind,
                parent.children@.len() as int,
            )[i],
{
    let cs = &parent.children;
    let mut out: Vec<&'a GreenToken> = Vec::new();
    let mut i: usize = 0;
    while i < cs.len()
        invariant
            cs@ == parent.children@,
            i <= cs@.len(),
            out@.len() == tokens_of_kind_upto(cs@, kind, i as int).len(),
            forall|j: int|
                0 <= j < out@.len() ==> *out@[j] == #[trigger] tokens_of_kind_upto(cs@, kind, i as int)[j],
        decreases cs@.len() - i,
    {
        match &cs[i] {
            GreenElement::Token(t) => {
                if t.kind == kind {
                    out.push(t);
                }
            },
            GreenElement::Node(_) => {},
        }
        i = i + 1;
    }
    out
}

/// The nodes of kind `kind` among the children of `parent`, in order.
pub fn child_nodes<'a>(parent: &'a GreenNode, kind: SyntaxKind) -> (r: Vec<&'a GreenNode>)
    ensures
        r@.len() == nodes_of_kind_upto(parent.children@, kind, parent.children@.len() as int).len(),
        forall|i: int|
            0 <= i < r@.len() ==> *r@[i] == #[trigger] nodes_of_kind_upto(
                parent.children@,
                kind,
                parent.children@.len() as int,
            )[i],
{
    let cs = &parent.children;
    let mut out: Vec<&'a GreenNode> = Vec::new();
    let mut i: usize = 0;
    while i < cs.len()
        invariant
            cs@ == parent.children@,
            i <= cs@.len(),
            out@.len() == nodes_of_kind_upto(cs@, kind, i as int).len(),
            forall|j: int|
                0 <= j < out@.len() ==> *out@[j] == #[trigger] nodes_of_kind_upto(cs@, kind, i as int)[j],
        decreases cs@.len() - i,
    {
        match &cs[i] {
            GreenElement::Node(n) => {
                if n.kind == kind {
                    out.push(n);
                }
            },
            GreenElement::Token(_) => {},
        }
        i = i + 1;
    }
    out
}

/// The first node, in depth-first pre-order from `e` itself, whose kind is
/// one of `ks`.
pub open spec fn preorder_first(e: GreenElement, ks: Seq<SyntaxKind>) -> Option<GreenNode>
    decreases e, 1int,
{
    match e {
        GreenElement::Token(_) => None,
        GreenElement::Node(n) => if ks.contains(n.kind) {
            Some(n)
        } else {
            preorder_first_seq(n.children@, ks)
        },
    }
}

pub open spec fn preorder_first_seq(cs: Seq<GreenElement>, ks: Seq<SyntaxKind>) -> Option<GreenNode>
    decreases cs, 0int,
{
    if cs.len() == 0 {
        None
    } else {
        match preorder_first(cs[0], ks) {
            Some(n) => Some(n),
            None => preorder_first_seq(cs.drop_first(), ks),
        }
    }
}

fn kind_in(ks: &[SyntaxKind], k: SyntaxKind) -> (r: bool)
    ensures
        r == ks@.contains(k),
{
    let mut i: usize = 0;
    while i < ks.len()
        invariant
            i <= ks@.len(),
            forall|j: int| 0 <= j < i ==> ks@[j] != k,
        decreases ks@.len() - i,
    {
        if ks[i] == k {
            return true;
        }
        i = i + 1;
    }
    false
}

/// The first node, in depth-first pre-order from `e` itself, whose kind is
/// one of `ks`.
pub fn first_descendant<'a>(e: &'a GreenElement, ks: &[SyntaxKind]) -> (r: Option<&'a GreenNode>)
    ensures
        match r {
            Some(n) => preorder_first(*e, ks@) == Some(*n),
            None => preorder_first(*e, ks@) is None,
        },
    decreases e, 1int,
{
    match e {
        GreenElement::Token(_) => None,
        GreenElement::Node(n) => {
            if kind_in(ks, n.kind) {
                Some(n)
            } else {
                first_descendant_in(&n.children, ks)
            }
        },
    }
}

/// The first node, in depth-first pre-order over `cs`, whose kind is one of `ks`.
pub fn first_descendant_in<'a>(cs: &'a Vec<GreenElement>, ks: &[SyntaxKind]) -> (r: Option<&'a GreenNode>)
    ensures
        match r {
            Some(n) => preorder_first_seq(cs@, ks@) == Some(*n),
            None => preorder_first_seq(cs@, ks@) is None,
        },
    decreases cs, 0int,
{
    let mut i: usize = 0;
    assert(cs@.subrange(0, cs@.len() as int) =~= cs@);
    while i < cs.len()
        invariant
            i <= cs@.len(),
            preorder_first_seq(cs@, ks@) == preorder_first_seq(cs@.subrange(i as int, cs@.len() as int), ks@),
        decreases cs@.len() - i,
    {
        let ghost rest = cs@.subrange(i as int, cs@.len() as int);
        assert(rest[0] == cs@[i as int]);
        assert(rest.drop_first() =~= cs@.subrange(i + 1, cs@.len() as int));
        match first_descendant(&cs[i], ks) {
            Some(n) => {
                return Some(n);
            },
            None => {},
        }
        i = i + 1;
    }
    None
}

/// The elements under `e`, `e` first, in depth-first pre-order.
pub open spec fn preorder(e: GreenElement) -> Seq<GreenElement>
    decreases e, 1int,
{
    match e {
        GreenElement::Token(_) => seq![e],
        GreenElement::Node(n) => seq![e] + preorder_all(n.children@),
    }
}

/// The elements under each of `cs`, in depth-first pre-order.
pub open spec fn preorder_all(cs: Seq<GreenElement>) -> Seq<GreenElement>
    decreases cs, 0int,
{
    if cs.len() == 0 {
        seq![]
    } else {
        preorder_all(cs.drop_last()) + preorder(cs.last())
    }
}

/// `out` is `old` followed by `add`, by reference.
pub open spec fn extends_by<'a>(out: Seq<&'a GreenElement>, old: Seq<&'a GreenElement>, add: Seq<GreenElement>) -> bool {
    &&& out.len() == old.len() + add.len()
    &&& forall|i: int| 0 <= i < old.len() ==> out[i] == old[i]
    &&& forall|i: int| 0 <= i < add.len() ==> *out[old.len() + i] == add[i]
}

/// Appends the elements under `e`, `e` first, in depth-first pre-order.
pub fn collect_preorder<'a>(e: &'a GreenElement, out: &mut Vec<&'a GreenElement>)
    ensures
        extends_by(final(out)@, old(out)@, preorder(*e)),
    decreases e,
{
    let ghost o0 = out@;
    out.push(e);
    match e {
        GreenElement::Token(_) => {},
        GreenElement::Node(n) => {
            let ghost o1 = out@;
            collect_children(n, out);
            proof {
                let pa = preorder_all(n.children@);
                assert forall|k: int| 0 <= k < 1 + pa.len() implies *out@[o0.len() + k] == preorder(*e)[k] by {
                    if k > 0 {
                        assert(out@[o1.len() + (k - 1)] == out@[o0.len() + k]);
                    }
                }
                assert forall|k: int| 0 <= k < o0.len() implies out@[k] == o0[k] by {
                    assert(out@[k] == o1[k]);
                }
            }
        },
    }
}

/// Appends the elements under each child of `n`, in depth-first pre-order.
fn collect_children<'a>(n: &'a GreenNode, out: &mut Vec<&'a GreenElement>)
    ensures
        extends_by(final(out)@, old(out)@, preorder_all(n.children@)),
    decreases n,
{
    let ghost o1 = out@;
    let mut i: usize = 0;
    assert(n.children@.subrange(0, 0) =~= Seq::<GreenElement>::empty());
    while i < n.children.len()
        invariant
            i <= n.children@.len(),
            extends_by(out@, o1, preorder_all(n.children@.subrange(0, i as int))),
        decreases n.children@.len() - i,
    {
        let ghost before = out@;
        collect_preorder(&n.children[i], out);
        proof {
            let sub = n.children@.subrange(0, i + 1);
            assert(sub.drop_last() =~= n.children@.subrange(0, i as int));
            assert(sub.last() == n.children@[i as int]);
            let a = preorder_all(n.children@.subrange(0, i as int));
            let b = preorder(n.children@[i as int]);
            assert(preorder_all(sub) == a + b);
            assert forall|k: int| 0 <= k < a.len() + b.len() implies *out@[o1.len() + k] == (a + b)[k] by {
                if k < a.len() {
                    assert(out@[o1.len() + k] == before[o1.len() + k]);
                } else {
                    assert(out@[before.len() + (k - a.len())] == out@[o1.len() + k]);
                }
            }
            assert forall|k: int| 0 <= k < o1.len() implies out@[k] == o1[k] by {
                assert(out@[k] == before[k]);
            }
        }
        i = i + 1;
    }
    assert(n.children@.subrange(0, i as int) =~= n.children@);
}

/// The elements under `e`, `e` first, in depth-first pre-order.
pub fn descendants<'a>(e: &'a GreenElement) -> (r: Vec<&'a GreenElement>)
    ensures
        r@.len() == preorder(*e).len(),
        forall|i: int| 0 <= i < r@.len() ==> *r@[i] == preorder(*e)[i],
{
    let mut out: Vec<&'a GreenElement> = Vec::new();
    collect_preorder(e, &mut out);
    out
}

} // verus!
