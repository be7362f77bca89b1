//! A parsed XML document as a list of nodes in document order, and the
//! walk over `problem.xml` that finds the sections an import handles.
use vstd::prelude::*;
use crate::importer::{Section, SolutionNode, TestNode, spec_section};

verus! {

/// One node of a parsed XML document.
#[derive(Debug, Clone)]
pub struct XmlNode {
    /// Identifier of the node within its document.
    pub id: u32,
    /// Identifier of the parent node; `None` for the document itself.
    pub parent: Option<u32>,
    /// The node is an element.
    pub element: bool,
    /// Tag name; empty for nodes that are not elements.
    pub tag: String,
    /// Attributes, as names and values.
    pub attrs: Vec<(String, String)>,
    /// Text of the node: its first child's text for an element.
    pub text: Option<String>,
}

/// The nodes that `roxmltree` parses `text` into, the document itself
/// first and the others in document order; `None` when `text` is not
/// well-formed XML.
pub uninterp spec fn parsed_xml(text: Seq<char>) -> Option<Seq<XmlNode>>;

/// `roxmltree::Document::parse` on `text`, with each node of
/// `Document::descendants` converted to an `XmlNode`. The contract names
/// the result.
#[verifier::external_body]
pub(crate) fn parse_xml(text: &str) -> (r: Option<Vec<XmlNode>>)
    ensures
        match parsed_xml(text@) {
            Some(ns) => r matches Some(v) && v@ == ns,
            None => r is None,
        },
{
    let doc = roxmltree::Document::parse(text).ok()?;
    Some(doc.descendants().map(|n| XmlNode {
        id: n.id().get(),
        parent: n.parent().map(|p| p.id().get()),
        element: n.is_element(),
        tag: n.tag_name().name().to_string(),
        attrs: n.attributes().map(|a| (a.name().to_string(), a.value().to_string())).collect(),
        text: n.text().map(|t| t.to_string()),
    }).collect())
}

/// Positions in `ns`, among the first `n`, of the children of node `id`,
/// in document order.
pub open spec fn children_upto(ns: Seq<XmlNode>, id: u32, n: int) -> Seq<usize>
    decreases n,
{
    if n <= 0 {
        seq![]
    } else if ns[n - 1].parent == Some(id) {
        children_upto(ns, id, n - 1).push((n - 1) as usize)
    } else {
        children_upto(ns, id, n - 1)
    }
}

/// Positions in `ns` of the children of node `id`, in document order.
pub open spec fn children_of(ns: Seq<XmlNode>, id: u32) -> Seq<usize> {
    children_upto(ns, id, ns.len() as int)
}

proof fn lemma_children_upto_bound(ns: Seq<XmlNode>, id: u32, n: int)
    requires
        0 <= n <= ns.len(),
        ns.len() <= usize::MAX,
    ensures
        forall|k: int| 0 <= k < children_upto(ns, id, n).len() ==> (#[trigger] children_upto(ns, id, n)[k] as int) < n,
    decreases n,
{
    if n > 0 {
        lemma_children_upto_bound(ns, id, n - 1);
        assert(((n - 1) as usize) as int == n - 1);
        let c0 = children_upto(ns, id, n - 1);
        let c = children_upto(ns, id, n);
        assert forall|k: int| 0 <= k < c.len() implies (#[trigger] c[k] as int) < n by {
            if k < c0.len() {
                assert(c[k] == c0[k]);
            }
        }
    }
}

/// The positions of the children of node `id`, in document order.
pub fn children(ns: &Vec<XmlNode>, id: u32) -> (r: Vec<usize>)
    ensures
        r@ == children_of(ns@, id),
        forall|k: int| 0 <= k < r@.len() ==> (#[trigger] r@[k] as int) < ns@.len(),
{
    let mut r: Vec<usize> = Vec::new();
    let mut i: usize = 0;
    while i < ns.len()
        invariant
            0 <= i <= ns@.len(),
            r@ == children_upto(ns@, id, i as int),
        decreases ns@.len() - i,
    {
        if ns[i].parent == Some(id) {
            r.push(i);
        }
        i = i + 1;
    }
    proof {
        assert(ns@.len() == ns.len());
        lemma_children_upto_bound(ns@, id, ns@.len() as int);
    }
    r
}

/// The value of the first attribute of `attrs` named `name`.
pub open spec fn attr_of(attrs: Seq<(String, String)>, name: Seq<char>) -> Option<Seq<char>>
    decreases attrs.len(),
{
    if attrs.len() == 0 {
        None
    } else if attrs[0].0@ == name {
        Some(attrs[0].1@)
    } else {
        attr_of(attrs.drop_first(), name)
    }
}

/// The value of `node`'s attribute `name`, if it has one.
pub fn attribute(node: &XmlNode, name: &str) -> (r: Option<String>)
    ensures
        match attr_of(node.attrs@, name@) {
            Some(v) => r matches Some(s) && s@ == v,
            None => r is None,
        },
{
    let mut i: usize = 0;
    proof {
        assert(node.attrs@.skip(0) =~= node.attrs@);
    }
    while i < node.attrs.len()
        invariant
            0 <= i <= node.attrs@.len(),
            attr_of(node.attrs@, name@) == attr_of(node.attrs@.skip(i as int), name@),
        decreases node.attrs@.len() - i,
    {
        proof {
            assert(node.attrs@.skip(i as int).drop_first() =~= node.attrs@.skip(i + 1));
        }
        if crate::text::str_eq(node.attrs[i].0.as_str(), name) {
            return Some(node.attrs[i].1.clone());
        }
        i = i + 1;
    }
    None
}

/// The positions among `cs`, in the first `j`, of elements tagged `tag`
/// (of any element, when `tag` is `None`).
pub open spec fn elements_upto(ns: Seq<XmlNode>, cs: Seq<usize>, tag: Option<Seq<char>>, j: int) -> Seq<usize>
    decreases j,
{
    if j <= 0 {
        seq![]
    } else {
        let e = elements_upto(ns, cs, tag, j - 1);
        let n = ns[cs[j - 1] as int];
        if n.element && (tag matches Some(t) ==> n.tag@ == t) {
            e.push(cs[j - 1])
        } else {
            e
        }
    }
}

/// Positions of the element children of node `pos`, tagged `tag` where it
/// is given, in document order.
pub open spec fn element_children(ns: Seq<XmlNode>, pos: int, tag: Option<Seq<char>>) -> Seq<usize> {
    let cs = children_of(ns, ns[pos].id);
    elements_upto(ns, cs, tag, cs.len() as int)
}

proof fn lemma_elements_upto_in(ns: Seq<XmlNode>, cs: Seq<usize>, tag: Option<Seq<char>>, j: int)
    requires
        0 <= j <= cs.len(),
        forall|k: int| 0 <= k < cs.len() ==> (#[trigger] cs[k] as int) < ns.len(),
    ensures
        forall|k: int|
            0 <= k < elements_upto(ns, cs, tag, j).len() ==> (#[trigger] elements_upto(ns, cs, tag, j)[k] as int)
                < ns.len(),
    decreases j,
{
    if j > 0 {
        lemma_elements_upto_in(ns, cs, tag, j - 1);
        let e0 = elements_upto(ns, cs, tag, j - 1);
        let e = elements_upto(ns, cs, tag, j);
        assert forall|k: int| 0 <= k < e.len() implies (#[trigger] e[k] as int) < ns.len() by {
            if k < e0.len() {
                assert(e[k] == e0[k]);
            }
        }
    }
}

/// The positions of the element children of node `pos`, those tagged `tag`
/// where it is given, in document order.
pub fn element_children_of(ns: &Vec<XmlNode>, pos: usize, tag: Option<&str>) -> (r: Vec<usize>)
    requires
        pos < ns@.len(),
    ensures
        r@ == element_children(ns@, pos as int, match tag {
            Some(t) => Some(t@),
            None => None,
        }),
        forall|k: int| 0 <= k < r@.len() ==> (#[trigger] r@[k] as int) < ns@.len(),
{
    let ghost tv = match tag {
        Some(t) => Some(t@),
        None => None::<Seq<char>>,
    };
    let cs = children(ns, ns[pos].id);
    let mut r: Vec<usize> = Vec::new();
    let mut j: usize = 0;
    while j < cs.len()
        invariant
            0 <= j <= cs@.len(),
            cs@ == children_of(ns@, ns@[pos as int].id),
            forall|k: int| 0 <= k < cs@.len() ==> (#[trigger] cs@[k] as int) < ns@.len(),
            tv == (match tag {
                Some(t) => Some(t@),
                None => None,
            }),
            r@ == elements_upto(ns@, cs@, tv, j as int),
        decreases cs@.len() - j,
    {
        let c = cs[j];
        let keep = match tag {
            Some(t) => ns[c].element && crate::text::str_eq(ns[c].tag.as_str(), t),
            None => ns[c].element,
        };
        if keep {
            r.push(c);
        }
        j = j + 1;
    }
    proof {
        lemma_elements_upto_in(ns@, cs@, tv, cs@.len() as int);
    }
    r
}

/// A text option as a character sequence option.
pub open spec fn opt_text(o: Option<String>) -> Option<Seq<char>> {
    match o {
        Some(s) => Some(s@),
        None => None,
    }
}

/// The test that element `n` of `<tests>` describes: its group, method and
/// command; `None` when it is no `<test>` or has no method.
pub open spec fn test_of(n: XmlNode) -> Option<(Option<Seq<char>>, Seq<char>, Option<Seq<char>>)> {
    if n.tag@ == "test"@ {
        match attr_of(n.attrs@, "method"@) {
            Some(m) => Some((attr_of(n.attrs@, "group"@), m, attr_of(n.attrs@, "cmd"@))),
            None => None,
        }
    } else {
        None
    }
}

/// A test as its group, method and command.
pub open spec fn test_node_view(t: TestNode) -> (Option<Seq<char>>, Seq<char>, Option<Seq<char>>) {
    (opt_text(t.group), t.method@, opt_text(t.cmd))
}

/// The tests that the element children of `<tests>` node `pos` describe, in
/// order; `None` when one of them is no `<test>` with a method.
pub fn test_nodes(ns: &Vec<XmlNode>, pos: usize) -> (r: Option<Vec<TestNode>>)
    requires
        pos < ns@.len(),
    ensures
        ({
            let es = element_children(ns@, pos as int, None);
            if forall|k: int| 0 <= k < es.len() ==> (#[trigger] test_of(ns@[es[k] as int])) is Some {
                r matches Some(v) && v@.len() == es.len() && forall|k: int|
                    0 <= k < es.len() ==> Some(test_node_view(#[trigger] v@[k])) == test_of(ns@[es[k] as int])
            } else {
                r is None
            }
        }),
{
    let es = element_children_of(ns, pos, None);
    let mut v: Vec<TestNode> = Vec::new();
    let mut k: usize = 0;
    while k < es.len()
        invariant
            0 <= k <= es@.len(),
            es@ == element_children(ns@, pos as int, None),
            forall|i: int| 0 <= i < es@.len() ==> (#[trigger] es@[i] as int) < ns@.len(),
            v@.len() == k,
            forall|i: int| 0 <= i < k ==> Some(test_node_view(#[trigger] v@[i])) == test_of(ns@[es@[i] as int]),
        decreases es@.len() - k,
    {
        let n = &ns[es[k]];
        proof {
            reveal_strlit("test");
        }
        if !crate::text::str_eq(n.tag.as_str(), "test") {
            proof {
                assert(test_of(ns@[es@[k as int] as int]) is None);
            }
            return None;
        }
        let method = match attribute(n, "method") {
            Some(m) => m,
            None => {
                proof {
                    assert(test_of(ns@[es@[k as int] as int]) is None);
                }
                return None;
            },
        };
        let group = attribute(n, "group");
        let cmd = attribute(n, "cmd");
        let t = TestNode { group, method, cmd };
        proof {
            assert(Some(test_node_view(t)) == test_of(ns@[es@[k as int] as int]));
        }
        v.push(t);
        k = k + 1;
    }
    proof {
        assert forall|i: int| 0 <= i < es@.len() implies (#[trigger] test_of(ns@[es@[i] as int])) is Some by {
            assert(Some(test_node_view(v@[i])) == test_of(ns@[es@[i] as int]));
        }
    }
    Some(v)
}

/// The path of the last `<source>` among the first `j` at positions `ss`:
/// `Some(None)` with none, `None` once one has no path.
pub open spec fn source_upto(ns: Seq<XmlNode>, ss: Seq<usize>, j: int) -> Option<Option<Seq<char>>>
    decreases j,
{
    if j <= 0 {
        Some(None)
    } else {
        match source_upto(ns, ss, j - 1) {
            None => None,
            Some(_) => match attr_of(ns[ss[j - 1] as int].attrs@, "path"@) {
                None => None,
                Some(p) => Some(Some(p)),
            },
        }
    }
}

/// The solution that element `p` of `<solutions>` describes: its tag and,
/// for a tagged one, the path of its last `<source>`; `None` when one of
/// its sources has no path.
pub open spec fn solution_of(ns: Seq<XmlNode>, p: int) -> Option<(Option<Seq<char>>, Option<Seq<char>>)> {
    match attr_of(ns[p].attrs@, "tag"@) {
        None => Some((None, None)),
        Some(t) => {
            let ss = element_children(ns, p, Some("source"@));
            match source_upto(ns, ss, ss.len() as int) {
                None => None,
                Some(src) => Some((Some(t), src)),
            }
        },
    }
}

/// The solutions described by the first `j` elements at positions `es`,
/// up to and including the first untagged one; `None` when one of them
/// has a source without a path.
pub open spec fn solutions_upto(ns: Seq<XmlNode>, es: Seq<usize>, j: int) -> Option<
    Seq<(Option<Seq<char>>, Option<Seq<char>>)>,
>
    decreases j,
{
    if j <= 0 {
        Some(seq![])
    } else {
        match solutions_upto(ns, es, j - 1) {
            None => None,
            Some(l) => if l.len() > 0 && l.last().0 is None {
                Some(l)
            } else {
                match solution_of(ns, es[j - 1] as int) {
                    None => None,
                    Some(x) => Some(l.push(x)),
                }
            },
        }
    }
}

/// A solution as its tag and source path.
pub open spec fn solution_node_view(s: SolutionNode) -> (Option<Seq<char>>, Option<Seq<char>>) {
    (opt_text(s.tag), opt_text(s.source))
}

proof fn lemma_solutions_settled(ns: Seq<XmlNode>, es: Seq<usize>, j: int, m: int)
    requires
        0 <= j <= m,
        solutions_upto(ns, es, j) is None || (solutions_upto(ns, es, j) matches Some(l) && l.len() > 0
            && l.last().0 is None),
    ensures
        solutions_upto(ns, es, m) == solutions_upto(ns, es, j),
    decreases m - j,
{
    if m > j {
        lemma_solutions_settled(ns, es, j, m - 1);
    }
}

/// The path of the last `<source>` child of element `p`, if it has any;
/// `None` when one of them has no path.
fn last_source(ns: &Vec<XmlNode>, p: usize) -> (r: Option<Option<String>>)
    requires
        p < ns@.len(),
    ensures
        ({
            let ss = element_children(ns@, p as int, Some("source"@));
            match source_upto(ns@, ss, ss.len() as int) {
                None => r is None,
                Some(src) => r matches Some(x) && opt_text(x) == src,
            }
        }),
{
    let ss = element_children_of(ns, p, Some("source"));
    let mut src: Option<String> = None;
    let mut j: usize = 0;
    while j < ss.len()
        invariant
            0 <= j <= ss@.len(),
            ss@ == element_children(ns@, p as int, Some("source"@)),
            forall|i: int| 0 <= i < ss@.len() ==> (#[trigger] ss@[i] as int) < ns@.len(),
            source_upto(ns@, ss@, j as int) == Some(opt_text(src)),
        decreases ss@.len() - j,
    {
        match attribute(&ns[ss[j]], "path") {
            Some(path) => {
                src = Some(path);
            },
            None => {
                proof {
                    lemma_source_none(ns@, ss@, j + 1, ss@.len() as int);
                }
                return None;
            },
        }
        j = j + 1;
    }
    Some(src)
}

proof fn lemma_source_none(ns: Seq<XmlNode>, ss: Seq<usize>, j: int, m: int)
    requires
        0 <= j <= m,
        source_upto(ns, ss, j) is None,
    ensures
        source_upto(ns, ss, m) is None,
    decreases m - j,
{
    if m > j {
        lemma_source_none(ns, ss, j, m - 1);
    }
}

/// The solutions that the element children of `<solutions>` node `pos`
/// describe, in order, up to and including the first untagged one; `None`
/// when a tagged one has a `<source>` without a path.
pub fn solution_nodes(ns: &Vec<XmlNode>, pos: usize) -> (r: Option<Vec<SolutionNode>>)
    requires
        pos < ns@.len(),
    ensures
        ({
            let es = element_children(ns@, pos as int, None);
            match solutions_upto(ns@, es, es.len() as int) {
                None => r is None,
                Some(l) => r matches Some(v) && v@.map_values(|s: SolutionNode| solution_node_view(s)) == l,
            }
        }),
{
    let es = element_children_of(ns, pos, None);
    let mut v: Vec<SolutionNode> = Vec::new();
    let mut k: usize = 0;
    proof {
        assert(v@.map_values(|s: SolutionNode| solution_node_view(s)) =~= Seq::<(Option<Seq<char>>, Option<Seq<char>>)>::empty());
    }
    while k < es.len()
        invariant
            0 <= k <= es@.len(),
            es@ == element_children(ns@, pos as int, None),
            forall|i: int| 0 <= i < es@.len() ==> (#[trigger] es@[i] as int) < ns@.len(),
            solutions_upto(ns@, es@, k as int) == Some(v@.map_values(|s: SolutionNode| solution_node_view(s))),
            !(v@.len() > 0 && v@.last().tag is None),
        decreases es@.len() - k,
    {
        let p = es[k];
        let tag = attribute(&ns[p], "tag");
        let untagged = tag.is_none();
        let source = if untagged {
            None
        } else {
            match last_source(ns, p) {
                Some(x) => x,
                None => {
                    proof {
                        assert(solutions_upto(ns@, es@, k + 1) is None);
                        lemma_solutions_settled(ns@, es@, k + 1, es@.len() as int);
                    }
                    return None;
                },
            }
        };
        let s = SolutionNode { tag, source };
        let ghost v0 = v@;
        v.push(s);
        proof {
            assert(v@.map_values(|s: SolutionNode| solution_node_view(s)) =~= v0.map_values(
                |s: SolutionNode| solution_node_view(s),
            ).push(solution_node_view(s)));
            assert(solutions_upto(ns@, es@, k + 1) == Some(v@.map_values(|s: SolutionNode| solution_node_view(s))));
        }
        k = k + 1;
        if untagged {
            proof {
                lemma_solutions_settled(ns@, es@, k as int, es@.len() as int);
            }
            return Some(v);
        }
    }
    Some(v)
}

/// The sections that the walk of an import finds from node `pos`, going
/// down at most `fuel` levels: a section element is taken whole, a
/// `problem` element is taken and its children walked, and the children of
/// any other node are walked in document order.
pub open spec fn sections_from(ns: Seq<XmlNode>, pos: int, fuel: nat) -> Seq<(Section, usize)>
    decreases fuel, 0int,
{
    if fuel == 0 || !(0 <= pos < ns.len()) {
        seq![]
    } else {
        let sec = spec_section(ns[pos].tag@);
        let cs = children_of(ns, ns[pos].id);
        if sec == Section::Other {
            sections_in(ns, cs, cs.len() as int, (fuel - 1) as nat)
        } else if sec == Section::Problem {
            seq![(Section::Problem, pos as usize)] + sections_in(ns, cs, cs.len() as int, (fuel - 1) as nat)
        } else {
            seq![(sec, pos as usize)]
        }
    }
}

/// The sections found from the first `j` nodes at positions `cs`, in turn.
pub open spec fn sections_in(ns: Seq<XmlNode>, cs: Seq<usize>, j: int, fuel: nat) -> Seq<(Section, usize)>
    decreases fuel, j,
{
    if j <= 0 {
        seq![]
    } else {
        sections_in(ns, cs, j - 1, fuel) + sections_from(ns, cs[j - 1] as int, fuel)
    }
}

/// The sections found from node `pos`, down at most `fuel` levels.
fn walk_sections(ns: &Vec<XmlNode>, pos: usize, fuel: usize) -> (r: Vec<(Section, usize)>)
    requires
        pos < ns@.len(),
    ensures
        r@ == sections_from(ns@, pos as int, fuel as nat),
    decreases fuel,
{
    if fuel == 0 {
        return Vec::new();
    }
    let sec = crate::importer::Importer::section_of(ns[pos].tag.as_str());
    match sec {
        Section::Other | Section::Problem => {},
        _ => {
            return vec![(sec, pos)];
        },
    }
    let cs = children(ns, ns[pos].id);
    let mut out: Vec<(Section, usize)> = Vec::new();
    if sec == Section::Problem {
        out.push((Section::Problem, pos));
    }
    let ghost start = out@;
    let mut j: usize = 0;
    while j < cs.len()
        invariant
            0 <= j <= cs@.len(),
            fuel > 0,
            forall|k: int| 0 <= k < cs@.len() ==> (#[trigger] cs@[k] as int) < ns@.len(),
            out@ == start + sections_in(ns@, cs@, j as int, (fuel - 1) as nat),
        decreases cs@.len() - j,
    {
        let mut sub = walk_sections(ns, cs[j], fuel - 1);
        let ghost o0 = out@;
        out.append(&mut sub);
        proof {
            assert(out@ =~= start + sections_in(ns@, cs@, j + 1, (fuel - 1) as nat));
        }
        j = j + 1;
    }
    out
}

/// Parses `problem.xml`'s text `text` and finds the sections its import
/// handles, in document order, with the nodes; `None` when the text is not
/// well-formed XML.
pub fn import_sections(text: &str) -> (r: Option<(Vec<XmlNode>, Vec<(Section, usize)>)>)
    ensures
        match parsed_xml(text@) {
            None => r is None,
            Some(ns) => r matches Some((v, s)) && v@ == ns && s@ == (if ns.len() == 0 {
                seq![]
            } else {
                sections_from(ns, 0, ns.len() as nat)
            }),
        },
{
    let ns = match parse_xml(text) {
        Some(v) => v,
        None => {
            return None;
        },
    };
    if ns.len() == 0 {
        return Some((ns, Vec::new()));
    }
    let n = ns.len();
    let s = walk_sections(&ns, 0, n);
    Some((ns, s))
}

} // verus!
