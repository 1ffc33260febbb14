//! Serialization adapter: a depth-first projection of the tree into a nested
//! external form (`JSONNode`), and a deterministic JSON rendering of that
//! form. Nesting replaces the parent back-reference, which is rebuilt on load.

use vstd::prelude::*;

use vstd::std_specs::iter::IteratorSpec;

use crate::error::TocError;
use crate::toc::{NodeView, TocRoot, TreeNodeMeta, TreeView};

verus! {

broadcast use {
    vstd::std_specs::vec::group_vec_axioms,
    vstd::string::group_string_axioms,
    vstd::string::next_postcondition,
};

/// One node of the external representation.
#[derive(Debug)]
pub struct JSONNode {
    pub id: usize,
    pub title: String,
    pub patch: Option<String>,
    pub meta: TreeNodeMeta,
    pub children: Vec<JSONNode>,
}

/// The external representation of the whole forest, in root order.
pub type JSONRoot = Vec<JSONNode>;

/// `jn` is the external form of the subtree rooted at `id`: same id, title,
/// patch and metadata, and one nested child per child id, in order.
pub open spec fn represents(nodes: Map<usize, NodeView>, id: usize, jn: JSONNode) -> bool
    decreases jn,
{
    &&& nodes.dom().contains(id)
    &&& jn.id == id
    &&& jn.title@ == nodes[id].title
    &&& (match jn.patch {
        Some(p) => nodes[id].patch == Some(p@),
        None => nodes[id].patch is None,
    })
    &&& jn.meta.words == nodes[id].words
    &&& jn.meta.range == nodes[id].range
    &&& jn.children@.len() == nodes[id].children.len()
    &&& forall|i: int|
        0 <= i < jn.children@.len() ==> represents(
            nodes,
            nodes[id].children[i],
            #[trigger] jn.children@[i],
        )
}

/// `r` is the external form of the whole forest.
pub open spec fn root_represents(v: TreeView, r: Seq<JSONNode>) -> bool {
    &&& r.len() == v.roots.len()
    &&& forall|i: int| 0 <= i < r.len() ==> represents(v.nodes, v.roots[i], #[trigger] r[i])
}

/// The decimal digits of `n`, most significant first.
pub open spec fn dec_str(n: nat) -> Seq<char>
    decreases n,
{
    if n < 10 {
        seq![dec_digit(n)]
    } else {
        dec_str(n / 10).push(dec_digit(n % 10))
    }
}

/// The character of one decimal digit.
pub open spec fn dec_digit(d: nat) -> char {
    ((d + 48) as u8) as char
}

/// The character of one hexadecimal digit, lower case.
pub open spec fn hex_digit(d: nat) -> char {
    if d < 10 {
        dec_digit(d)
    } else {
        ((d + 87) as u8) as char
    }
}

/// The JSON escape of one character inside a quoted string.
pub open spec fn esc_char(c: char) -> Seq<char> {
    if c == '"' {
        seq!['\\', '"']
    } else if c == '\\' {
        seq!['\\', '\\']
    } else if c == '\u{8}' {
        seq!['\\', 'b']
    } else if c == '\t' {
        seq!['\\', 't']
    } else if c == '\n' {
        seq!['\\', 'n']
    } else if c == '\u{c}' {
        seq!['\\', 'f']
    } else if c == '\r' {
        seq!['\\', 'r']
    } else if (c as u32) < 32 {
        seq!['\\', 'u', '0', '0', hex_digit((c as u32 / 16) as nat), hex_digit(
            (c as u32 % 16) as nat,
        )]
    } else {
        seq![c]
    }
}

/// The JSON escape of a whole string body.
pub open spec fn esc_str(s: Seq<char>) -> Seq<char>
    decreases s.len(),
{
    if s.len() == 0 {
        Seq::empty()
    } else {
        esc_char(s[0]) + esc_str(s.drop_first())
    }
}

/// A quoted, escaped JSON string.
pub open spec fn json_string(s: Seq<char>) -> Seq<char> {
    seq!['"'] + esc_str(s) + seq!['"']
}

/// The JSON text of an optional patch blob: the quoted text, or `null`.
pub open spec fn patch_json(p: Option<Seq<char>>) -> Seq<char> {
    match p {
        None => "null"@,
        Some(s) => json_string(s),
    }
}

/// The JSON text of one node of the external form.
pub open spec fn node_json(jn: JSONNode) -> Seq<char>
    decreases jn, 0int,
{
    "{\"id\":"@ + dec_str(jn.id as nat) + ",\"title\":"@ + json_string(jn.title@) + ",\"patch\":"@
        + patch_json(
        match jn.patch {
            Some(p) => Some(p@),
            None => None,
        },
    ) + ",\"meta\":{\"words\":"@ + dec_str(jn.meta.words as nat) + ",\"range\":["@ + dec_str(
        jn.meta.range.0 as nat,
    ) + ","@ + dec_str(jn.meta.range.1 as nat) + "]},\"children\":"@ + list_json(jn.children@)
        + "}"@
}

/// The JSON text of a node list, brackets included.
pub open spec fn list_json(l: Seq<JSONNode>) -> Seq<char>
    decreases l, 2int,
{
    seq!['['] + items_json(l) + seq![']']
}

/// The JSON text of a node list's comma-separated items.
pub open spec fn items_json(l: Seq<JSONNode>) -> Seq<char>
    decreases l, 1int,
{
    if l.len() == 0 {
        Seq::empty()
    } else if l.len() == 1 {
        node_json(l[0])
    } else {
        node_json(l[0]) + seq![','] + items_json(l.drop_first())
    }
}

/// Relies on String::push: appends the one character.
#[verifier::external_body]
pub(crate) fn push_char(s: &mut String, c: char)
    ensures
        final(s)@ == old(s)@.push(c),
{
    s.push(c)
}

/// Relies on String::push_str: appends the string slice.
#[verifier::external_body]
pub(crate) fn push_str_part(s: &mut String, t: &str)
    ensures
        final(s)@ == old(s)@ + t@,
{
    s.push_str(t)
}

/// Appends the decimal digits of `n`.
pub(crate) fn push_dec(out: &mut String, n: u128)
    ensures
        final(out)@ == old(out)@ + dec_str(n as nat),
    decreases n,
{
    if n >= 10 {
        push_dec(out, n / 10);
    }
    let ghost mid = out@;
    let d = (n % 10) as u8;
    push_char(out, (48 + d) as char);
    proof {
        if n >= 10 {
            assert(out@ =~= old(out)@ + dec_str(n as nat));
        } else {
            assert(dec_str(n as nat) =~= seq![dec_digit(n as nat)]);
            assert(out@ =~= old(out)@ + dec_str(n as nat));
        }
    }
}

/// Escaping distributes over extending the string by one character.
proof fn lemma_esc_push(s: Seq<char>, c: char)
    ensures
        esc_str(s.push(c)) == esc_str(s) + esc_char(c),
    decreases s.len(),
{
    if s.len() == 0 {
        assert(s.push(c)[0] == c);
        assert(s.push(c).drop_first() =~= Seq::<char>::empty());
        assert(esc_str(Seq::<char>::empty()) =~= Seq::<char>::empty());
        assert(esc_str(s.push(c)) == esc_char(c) + esc_str(s.push(c).drop_first()));
        assert(esc_str(s.push(c)) =~= esc_char(c));
        assert(esc_str(s) + esc_char(c) =~= esc_char(c));
    } else {
        assert(s.push(c).drop_first() =~= s.drop_first().push(c));
        assert(s.push(c)[0] == s[0]);
        lemma_esc_push(s.drop_first(), c);
        assert(esc_str(s.push(c)) =~= esc_char(s[0]) + (esc_str(s.drop_first()) + esc_char(c)));
        assert(esc_str(s) + esc_char(c) =~= esc_char(s[0]) + (esc_str(s.drop_first()) + esc_char(
            c,
        )));
    }
}

/// Appends one escaped character of a JSON string body.
fn push_esc_char(out: &mut String, c: char)
    ensures
        final(out)@ == old(out)@ + esc_char(c),
{
    if c == '"' {
        push_str_part(out, "\\\"");
        proof {
            reveal_strlit("\\\"");
            assert(out@ =~= old(out)@ + esc_char(c));
        }
    } else if c == '\\' {
        push_str_part(out, "\\\\");
        proof {
            reveal_strlit("\\\\");
            assert(out@ =~= old(out)@ + esc_char(c));
        }
    } else if c == '\u{8}' {
        push_str_part(out, "\\b");
        proof {
            reveal_strlit("\\b");
            assert(out@ =~= old(out)@ + esc_char(c));
        }
    } else if c == '\t' {
        push_str_part(out, "\\t");
        proof {
            reveal_strlit("\\t");
            assert(out@ =~= old(out)@ + esc_char(c));
        }
    } else if c == '\n' {
        push_str_part(out, "\\n");
        proof {
            reveal_strlit("\\n");
            assert(out@ =~= old(out)@ + esc_char(c));
        }
    } else if c == '\u{c}' {
        push_str_part(out, "\\f");
        proof {
            reveal_strlit("\\f");
            assert(out@ =~= old(out)@ + esc_char(c));
        }
    } else if c == '\r' {
        push_str_part(out, "\\r");
        proof {
            reveal_strlit("\\r");
            assert(out@ =~= old(out)@ + esc_char(c));
        }
    } else if (c as u32) < 32 {
        push_str_part(out, "\\u00");
        let hi = (c as u32) / 16;
        let lo = (c as u32) % 16;
        let hic = if hi < 10 {
            (48 + hi as u8) as char
        } else {
            (87 + hi as u8) as char
        };
        let loc = if lo < 10 {
            (48 + lo as u8) as char
        } else {
            (87 + lo as u8) as char
        };
        push_char(out, hic);
        push_char(out, loc);
        proof {
            reveal_strlit("\\u00");
            assert(hic == hex_digit(hi as nat) && loc == hex_digit(lo as nat));
            assert(out@ =~= old(out)@ + esc_char(c));
        }
    } else {
        push_char(out, c);
        proof {
            assert(out@ =~= old(out)@ + esc_char(c));
        }
    }
}

/// Appends a quoted, escaped JSON string.
fn push_json_string(out: &mut String, s: &str)
    ensures
        final(out)@ == old(out)@ + json_string(s@),
{
    push_char(out, '"');
    let mut chars = s.chars();
    let ghost mut done: Seq<char> = Seq::empty();
    proof {
        assert(esc_str(done) =~= Seq::<char>::empty());
        assert(out@ =~= old(out)@ + seq!['"'] + esc_str(done));
    }
    loop
        invariant
            done + chars.remaining() == s@,
            out@ == old(out)@ + seq!['"'] + esc_str(done),
            chars.obeys_prophetic_iter_laws(),
        ensures
            done == s@,
            out@ == old(out)@ + seq!['"'] + esc_str(s@),
        decreases s@.len() - done.len(),
    {
        let ghost rem = chars.remaining();
        match chars.next() {
            Some(c) => {
                proof {
                    assert(c == rem[0]);
                }
                push_esc_char(out, c);
                proof {
                    lemma_esc_push(done, c);
                    done = done.push(c);
                    assert(done + chars.remaining() =~= s@);
                    assert(out@ =~= old(out)@ + seq!['"'] + esc_str(done));
                }
            },
            None => {
                proof {
                    assert(rem.len() == 0);
                    assert(done =~= s@);
                }
                break ;
            },
        }
    }
    push_char(out, '"');
    proof {
        assert(out@ =~= old(out)@ + json_string(s@));
    }
}

/// Splitting a list's items at the last element.
proof fn lemma_items_push(l: Seq<JSONNode>, x: JSONNode)
    ensures
        items_json(l.push(x)) == if l.len() == 0 {
            node_json(x)
        } else {
            items_json(l) + seq![','] + node_json(x)
        },
    decreases l.len(),
{
    if l.len() == 0 {
        assert(l.push(x).len() == 1);
        assert(l.push(x)[0] == x);
        assert(items_json(l.push(x)) =~= node_json(x));
    } else {
        assert(l.push(x)[0] == l[0]);
        assert(l.push(x).drop_first() =~= l.drop_first().push(x));
        lemma_items_push(l.drop_first(), x);
        if l.len() == 1 {
            assert(items_json(l.push(x)) =~= items_json(l) + seq![','] + node_json(x));
        } else {
            assert(items_json(l.push(x)) =~= node_json(l[0]) + seq![','] + (items_json(
                l.drop_first(),
            ) + seq![','] + node_json(x)));
            assert(items_json(l) + seq![','] + node_json(x) =~= node_json(l[0]) + seq![','] + (
            items_json(l.drop_first()) + seq![','] + node_json(x)));
        }
    }
}

/// Appends the JSON text of one node of the external form.
fn push_node_json(out: &mut String, jn: &JSONNode)
    ensures
        final(out)@ == old(out)@ + node_json(*jn),
    decreases *jn,
{
    push_str_part(out, "{\"id\":");
    push_dec(out, jn.id as u128);
    push_str_part(out, ",\"title\":");
    push_json_string(out, jn.title.as_str());
    push_str_part(out, ",\"patch\":");
    match &jn.patch {
        None => {
            push_str_part(out, "null");
        },
        Some(p) => {
            push_json_string(out, p.as_str());
        },
    }
    push_str_part(out, ",\"meta\":{\"words\":");
    push_dec(out, jn.meta.words);
    push_str_part(out, ",\"range\":[");
    push_dec(out, jn.meta.range.0);
    push_str_part(out, ",");
    push_dec(out, jn.meta.range.1);
    push_str_part(out, "]},\"children\":");
    push_list_json(out, &jn.children);
    push_str_part(out, "}");
    proof {
        assert(out@ =~= old(out)@ + node_json(*jn));
    }
}

/// Appends the JSON text of a node list, brackets included.
fn push_list_json(out: &mut String, l: &Vec<JSONNode>)
    ensures
        final(out)@ == old(out)@ + list_json(l@),
    decreases l@,
{
    push_char(out, '[');
    let mut k: usize = 0;
    while k < l.len()
        invariant
            k <= l@.len(),
            out@ == old(out)@ + seq!['['] + items_json(l@.subrange(0, k as int)),
        decreases l@.len() - k,
    {
        if k > 0 {
            push_str_part(out, ",");
        }
        let ghost mid = out@;
        push_node_json(out, &l[k]);
        proof {
            lemma_items_push(l@.subrange(0, k as int), l@[k as int]);
            assert(l@.subrange(0, k as int + 1) =~= l@.subrange(0, k as int).push(l@[k as int]));
            reveal_strlit(",");
            assert(out@ =~= old(out)@ + seq!['['] + items_json(l@.subrange(0, k as int + 1)));
        }
        k = k + 1;
    }
    push_char(out, ']');
    proof {
        assert(l@.subrange(0, l@.len() as int) =~= l@);
        assert(out@ =~= old(out)@ + list_json(l@));
    }
}

impl TocRoot {
    /// The external form of the subtree rooted at the live node `id`.
    fn to_json_node(&self, id: usize) -> (r: JSONNode)
        requires
            self.wf(),
            self@.nodes.dom().contains(id),
        ensures
            represents(self@.nodes, id, r),
        decreases self.json_measure(id),
    {
        let node = match self.get(id) {
            Some(n) => n,
            None => {
                proof {
                    assert(false);
                }
                return (JSONNode {
                    id: 0,
                    title: String::new(),
                    patch: None,
                    meta: TreeNodeMeta { words: 0, range: (0, 0) },
                    children: Vec::new(),
                });
            },
        };
        proof {
            self.lemma_wf_inv();
        }
        let mut children: Vec<JSONNode> = Vec::new();
        let mut k: usize = 0;
        while k < node.children.len()
            invariant
                self.wf(),
                self@.nodes.dom().contains(id),
                node@ == self@.nodes[id],
                k <= node.children@.len(),
                children@.len() == k,
                forall|i: int|
                    0 <= i < k ==> represents(
                        self@.nodes,
                        self@.nodes[id].children[i],
                        #[trigger] children@[i],
                    ),
            decreases node.children@.len() - k,
        {
            let c = node.children[k];
            proof {
                self.lemma_child_measure(id, c, k as int);
            }
            let jc = self.to_json_node(c);
            children.push(jc);
            k = k + 1;
        }
        proof {
            assert(self@.nodes[id].id == id);
        }
        let r = JSONNode {
            id: node.id,
            title: node.title.clone(),
            patch: match &node.patch {
                Some(p) => Some(p.clone()),
                None => None,
            },
            meta: node.meta,
            children,
        };
        r
    }

    /// Projects the whole tree into its external form, in root order.
    pub fn to_json(&self) -> (r: JSONRoot)
        requires
            self.wf(),
        ensures
            root_represents(self@, r@),
    {
        let mut out: Vec<JSONNode> = Vec::new();
        let roots = self.root_ids();
        let mut k: usize = 0;
        while k < roots.len()
            invariant
                self.wf(),
                roots@ == self@.roots,
                k <= self@.roots.len(),
                out@.len() == k,
                forall|i: int|
                    0 <= i < k ==> represents(self@.nodes, self@.roots[i], #[trigger] out@[i]),
            decreases self@.roots.len() - k,
        {
            let id = roots[k];
            proof {
                self.lemma_wf_inv();
                assert(self@.nodes.dom().contains(id));
            }
            let jn = self.to_json_node(id);
            out.push(jn);
            k = k + 1;
        }
        out
    }

    /// Serializes the tree to its deterministic JSON text. Serialization
    /// cannot fail: the result is always the rendering of an external form
    /// that represents the tree.
    pub fn dump(&self) -> (r: Result<String, TocError>)
        requires
            self.wf(),
        ensures
            r is Ok,
            exists|jr: JSONRoot|
                #![trigger root_represents(self@, jr@)]
                root_represents(self@, jr@) && r->Ok_0@ == list_json(jr@),
    {
        let jr = self.to_json();
        let mut out = String::new();
        push_list_json(&mut out, &jr);
        proof {
            assert(out@ =~= list_json(jr@));
            assert(root_represents(self@, jr@) && out@ == list_json(jr@));
        }
        Ok(out)
    }
}

/// The loaded tree below `id` mirrors `jn` within the id set `fresh`: same
/// title, patch and metadata, one child per nested child, in order. The ids
/// themselves are newly assigned, so `jn.id` plays no part.
pub open spec fn rep_within(
    nodes: Map<usize, NodeView>,
    id: usize,
    jn: JSONNode,
    fresh: Set<usize>,
) -> bool
    decreases jn,
{
    &&& fresh.contains(id)
    &&& nodes.dom().contains(id)
    &&& jn.title@ == nodes[id].title
    &&& (match jn.patch {
        Some(p) => nodes[id].patch == Some(p@),
        None => nodes[id].patch is None,
    })
    &&& jn.meta.words == nodes[id].words
    &&& jn.meta.range == nodes[id].range
    &&& jn.children@.len() == nodes[id].children.len()
    &&& forall|i: int|
        0 <= i < jn.children@.len() ==> rep_within(
            nodes,
            nodes[id].children[i],
            #[trigger] jn.children@[i],
            fresh,
        )
}

/// The loaded forest mirrors `jr`, with every node drawn from `fresh`.
pub open spec fn rep_root_within(v: TreeView, jr: Seq<JSONNode>, fresh: Set<usize>) -> bool {
    &&& v.roots.len() == jr.len()
    &&& forall|i: int| 0 <= i < jr.len() ==> rep_within(v.nodes, v.roots[i], #[trigger] jr[i], fresh)
}

/// Mirroring is stable under growing the id set and under any change that
/// leaves the entries of that set alone.
proof fn lemma_rep_within_mono(
    ns: Map<usize, NodeView>,
    ns2: Map<usize, NodeView>,
    id: usize,
    jn: JSONNode,
    fresh: Set<usize>,
    fresh2: Set<usize>,
)
    requires
        rep_within(ns, id, jn, fresh),
        fresh.subset_of(fresh2),
        forall|k: usize|
            fresh.contains(k) && ns.dom().contains(k) ==> ns2.dom().contains(k) && ns2[k] == ns[k],
    ensures
        rep_within(ns2, id, jn, fresh2),
    decreases jn,
{
    assert forall|i: int| 0 <= i < jn.children@.len() implies rep_within(
        ns2,
        ns2[id].children[i],
        #[trigger] jn.children@[i],
        fresh2,
    ) by {
        lemma_rep_within_mono(ns, ns2, ns[id].children[i], jn.children@[i], fresh, fresh2);
    }
}

impl TocRoot {
    /// Loads one node of the external form under `parent`, assigning a fresh
    /// id and wiring the back-reference, then its children in order.
    fn load_node(&mut self, jn: &JSONNode, parent: Option<usize>) -> (r: usize)
        requires
            old(self).wf(),
            parent matches Some(p) ==> old(self)@.nodes.dom().contains(p),
        ensures
            final(self).wf(),
            !old(self)@.nodes.dom().contains(r),
            final(self)@.nodes.dom().contains(r),
            old(self)@.nodes.dom().subset_of(final(self)@.nodes.dom()),
            final(self)@.nodes[r].parent == parent,
            rep_within(
                final(self)@.nodes,
                r,
                *jn,
                final(self)@.nodes.dom().difference(old(self)@.nodes.dom()),
            ),
            match parent {
                None => final(self)@.roots == old(self)@.roots.push(r) && (forall|k: usize|
                    old(self)@.nodes.dom().contains(k) ==> final(self)@.nodes[k] == old(
                        self,
                    )@.nodes[k]),
                Some(p) => final(self)@.roots == old(self)@.roots && final(self)@.nodes[p] == (
                NodeView {
                    children: old(self)@.nodes[p].children.push(r),
                    ..old(self)@.nodes[p]
                }) && (forall|k: usize|
                    old(self)@.nodes.dom().contains(k) && k != p ==> final(self)@.nodes[k] == old(
                        self,
                    )@.nodes[k]),
            },
        decreases *jn,
    {
        let ghost pre = self@;
        let r = match self.add_with_meta(jn.title.as_str(), Some(jn.meta), parent) {
            Ok(r) => r,
            Err(_) => {
                proof {
                    assert(false);
                }
                return 0;
            },
        };
        match &jn.patch {
            Some(p) => {
                self.set_patch(r, Some(p.clone()));
            },
            None => {},
        }
        let ghost start = self@;
        proof {
            assert(start.nodes.dom() =~= pre.nodes.dom().insert(r));
            assert(start.nodes[r].title == jn.title@);
            assert(start.nodes[r].children == Seq::<usize>::empty());
            match parent {
                None => {
                    assert(start.roots == pre.roots.push(r));
                    assert forall|q: usize|
                        pre.nodes.dom().contains(q) implies start.nodes[q] == pre.nodes[q] by {}
                },
                Some(p) => {
                    assert(start.roots == pre.roots);
                    assert(start.nodes[p] == (NodeView {
                        children: pre.nodes[p].children.push(r),
                        ..pre.nodes[p]
                    }));
                    assert forall|q: usize|
                        pre.nodes.dom().contains(q) && q != p implies start.nodes[q]
                        == pre.nodes[q] by {}
                },
            }
        }
        let mut k: usize = 0;
        while k < jn.children.len()
            invariant
                self.wf(),
                k <= jn.children@.len(),
                !pre.nodes.dom().contains(r),
                start.nodes.dom() == pre.nodes.dom().insert(r),
                start.nodes.dom().subset_of(self@.nodes.dom()),
                self@.roots == start.roots,
                self@.nodes.dom().contains(r),
                self@.nodes[r].parent == parent,
                self@.nodes[r].id == start.nodes[r].id,
                self@.nodes[r].title == start.nodes[r].title,
                self@.nodes[r].patch == start.nodes[r].patch,
                self@.nodes[r].words == start.nodes[r].words,
                self@.nodes[r].range == start.nodes[r].range,
                self@.nodes[r].children.len() == k,
                forall|q: usize|
                    start.nodes.dom().contains(q) && q != r ==> self@.nodes[q] == start.nodes[q],
                forall|i: int|
                    0 <= i < k ==> rep_within(
                        self@.nodes,
                        self@.nodes[r].children[i],
                        #[trigger] jn.children@[i],
                        self@.nodes.dom().difference(start.nodes.dom()),
                    ),
            decreases jn.children@.len() - k,
        {
            let ghost mid = self@;
            let c = self.load_node(&jn.children[k], Some(r));
            k = k + 1;
            proof {
                assert(self@.nodes[r].children =~= mid.nodes[r].children.push(c));
                let fm = mid.nodes.dom().difference(start.nodes.dom());
                let ff = self@.nodes.dom().difference(start.nodes.dom());
                assert(fm.subset_of(ff));
                assert(!fm.contains(r));
                assert forall|i: int| 0 <= i < k implies rep_within(
                    self@.nodes,
                    self@.nodes[r].children[i],
                    #[trigger] jn.children@[i],
                    ff,
                ) by {
                    if i < k - 1 {
                        lemma_rep_within_mono(
                            mid.nodes,
                            self@.nodes,
                            mid.nodes[r].children[i],
                            jn.children@[i],
                            fm,
                            ff,
                        );
                        assert(self@.nodes[r].children[i] == mid.nodes[r].children[i]);
                    } else {
                        let fc = self@.nodes.dom().difference(mid.nodes.dom());
                        assert(fc.subset_of(ff));
                        lemma_rep_within_mono(
                            self@.nodes,
                            self@.nodes,
                            c,
                            jn.children@[i],
                            fc,
                            ff,
                        );
                        assert(self@.nodes[r].children[i] == c);
                    }
                }
            }
        }
        proof {
            let fs = self@.nodes.dom().difference(start.nodes.dom());
            let ff = self@.nodes.dom().difference(pre.nodes.dom());
            assert(ff.contains(r));
            assert forall|i: int| 0 <= i < jn.children@.len() implies rep_within(
                self@.nodes,
                self@.nodes[r].children[i],
                #[trigger] jn.children@[i],
                ff,
            ) by {
                assert(fs.subset_of(ff));
                lemma_rep_within_mono(
                    self@.nodes,
                    self@.nodes,
                    self@.nodes[r].children[i],
                    jn.children@[i],
                    fs,
                    ff,
                );
            }
            assert(rep_within(self@.nodes, r, *jn, ff));
            assert forall|q: usize| pre.nodes.dom().contains(q) implies self@.nodes[q]
                == start.nodes[q] by {}
            match parent {
                None => {
                    assert forall|q: usize| pre.nodes.dom().contains(q) implies self@.nodes[q]
                        == pre.nodes[q] by {}
                },
                Some(p) => {
                    assert(self@.nodes[p] == (NodeView {
                        children: pre.nodes[p].children.push(r),
                        ..pre.nodes[p]
                    }));
                    assert forall|q: usize|
                        pre.nodes.dom().contains(q) && q != p implies self@.nodes[q]
                        == pre.nodes[q] by {}
                },
            }
        }
        r
    }

    /// Rebuilds a tree from its external form: a pre-order walk that assigns
    /// fresh ids and wires each back-reference from the enclosing call. The
    /// ids stored in the external form are not reused.
    pub fn load(jr: &JSONRoot) -> (t: TocRoot)
        ensures
            t.wf(),
            rep_root_within(t@, jr@, t@.nodes.dom()),
    {
        let mut t = TocRoot::new();
        let mut k: usize = 0;
        while k < jr.len()
            invariant
                t.wf(),
                k <= jr@.len(),
                t@.roots.len() == k,
                forall|i: int|
                    0 <= i < k ==> rep_within(
                        t@.nodes,
                        t@.roots[i],
                        #[trigger] jr@[i],
                        t@.nodes.dom(),
                    ),
            decreases jr@.len() - k,
        {
            let ghost mid = t@;
            let r = t.load_node(&jr[k], None);
            k = k + 1;
            proof {
                assert(t@.roots =~= mid.roots.push(r));
                let fm = t@.nodes.dom().difference(mid.nodes.dom());
                assert forall|i: int| 0 <= i < k implies rep_within(
                    t@.nodes,
                    t@.roots[i],
                    #[trigger] jr@[i],
                    t@.nodes.dom(),
                ) by {
                    if i < k - 1 {
                        lemma_rep_within_mono(
                            mid.nodes,
                            t@.nodes,
                            mid.roots[i],
                            jr@[i],
                            mid.nodes.dom(),
                            t@.nodes.dom(),
                        );
                        assert(t@.roots[i] == mid.roots[i]);
                    } else {
                        lemma_rep_within_mono(t@.nodes, t@.nodes, r, jr@[i], fm, t@.nodes.dom());
                        assert(t@.roots[i] == r);
                    }
                }
            }
        }
        t
    }
}


} // verus!
