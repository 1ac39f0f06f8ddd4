//! The hex colors that fill and stroke paint give the drawn elements of an
//! SVG, inherited paint included: the colors an automatic mapping numbers.
use vstd::prelude::*;
use crate::color::{style_property, style_value};
use crate::hexcolor::{
    is_lower_hex, lemma_normalized_is_lower_hex, lowercase, lowercase_chars, normalize_hex_color,
    normalized_hex, trim, trim_chars,
};
use crate::listing::{
    chars_le,
    chars_view,
    insertion_point,
    lemma_chars_le_antisymmetric,
    lemma_chars_le_reflexive,
    lemma_chars_le_total,
    lemma_chars_le_transitive,
};
use crate::strings::{chars_of, debug_quoted, debug_text, push_str, same_chars, string_of, strings_view};

verus! {

/// One attribute of a parsed XML node.
pub struct SvgAttribute {
    pub namespace: Option<String>,
    pub name: String,
    pub value: String,
}

/// One node of a parsed SVG document. The nodes are listed in document
/// order, the document itself first; `parent` is the position of the
/// node's parent in that list.
pub struct SvgNode {
    pub element: bool,
    /// The tag's local name; empty for a node that is no element.
    pub tag: String,
    pub attributes: Vec<SvgAttribute>,
    pub parent: Option<usize>,
    /// Whether the node is character data.
    pub text_node: bool,
    /// The text of a text or comment node; of an element, that of its first
    /// child where that is a text node.
    pub text: Option<String>,
    /// The byte offset at which the node starts in the document.
    pub position: usize,
}

impl View for SvgAttribute {
    type V = (Option<Seq<char>>, Seq<char>, Seq<char>);

    open spec fn view(&self) -> (Option<Seq<char>>, Seq<char>, Seq<char>) {
        (
            match self.namespace {
                Some(n) => Some(n@),
                None => None,
            },
            self.name@,
            self.value@,
        )
    }
}

impl View for SvgNode {
    type V = (
        bool,
        Seq<char>,
        Seq<(Option<Seq<char>>, Seq<char>, Seq<char>)>,
        Option<usize>,
        bool,
        Option<Seq<char>>,
        usize,
    );

    open spec fn view(&self) -> (
        bool,
        Seq<char>,
        Seq<(Option<Seq<char>>, Seq<char>, Seq<char>)>,
        Option<usize>,
        bool,
        Option<Seq<char>>,
        usize,
    ) {
        (
            self.element,
            self.tag@,
            self.attributes@.map_values(|a: SvgAttribute| a@),
            self.parent,
            self.text_node,
            match self.text {
                Some(t) => Some(t@),
                None => None,
            },
            self.position,
        )
    }
}

/// The nodes of a document as plain values.
pub open spec fn nodes_view(nodes: Seq<SvgNode>) -> Seq<
    (bool, Seq<char>, Seq<(Option<Seq<char>>, Seq<char>, Seq<char>)>, Option<usize>, bool, Option<Seq<char>>, usize),
> {
    nodes.map_values(|n: SvgNode| n@)
}

/// The nodes that `roxmltree` parses from an SVG text, in document order,
/// or `None` where it refuses the text as XML.
pub uninterp spec fn svg_nodes(svg: Seq<char>) -> Option<
    Seq<(bool, Seq<char>, Seq<(Option<Seq<char>>, Seq<char>, Seq<char>)>, Option<usize>, bool, Option<Seq<char>>, usize)>,
>;

/// `roxmltree::Document::parse`, with the document's descendants read out as
/// plain nodes. Its result is named `svg_nodes`; the text of the parse error
/// is not stated.
#[verifier::external_body]
pub(crate) fn parse_svg_nodes(svg: &str) -> (r: Result<Vec<SvgNode>, String>)
    ensures
        r is Ok <==> svg_nodes(svg@) is Some,
        r matches Ok(nodes) ==> svg_nodes(svg@) == Some(nodes_view(nodes@)),
{
    let document = roxmltree::Document::parse(svg).map_err(|e| e.to_string())?;
    let nodes = document.descendants().map(|node| SvgNode {
        element: node.is_element(),
        tag: node.tag_name().name().to_owned(),
        attributes: node.attributes().map(|a| SvgAttribute {
            namespace: a.namespace().map(str::to_owned),
            name: a.name().to_owned(),
            value: a.value().to_owned(),
        }).collect(),
        parent: node.parent().map(|p| p.id().get_usize()),
        text_node: node.is_text(),
        text: node.text().map(str::to_owned),
        position: node.range().start,
    });
    Ok(nodes.collect())
}

pub open spec fn style_name() -> Seq<char> {
    seq!['s', 't', 'y', 'l', 'e']
}

pub open spec fn fill_name() -> Seq<char> {
    seq!['f', 'i', 'l', 'l']
}

pub open spec fn stroke_name() -> Seq<char> {
    seq!['s', 't', 'r', 'o', 'k', 'e']
}

pub open spec fn line_tag() -> Seq<char> {
    seq!['l', 'i', 'n', 'e']
}

/// The default fill: black.
pub open spec fn black() -> Seq<char> {
    seq!['#', '0', '0', '0', '0', '0', '0']
}

/// Whether a tag names a drawn element.
pub open spec fn is_drawn_tag(tag: Seq<char>) -> bool {
    ||| tag == seq!['p', 'a', 't', 'h']
    ||| tag == seq!['r', 'e', 'c', 't']
    ||| tag == seq!['c', 'i', 'r', 'c', 'l', 'e']
    ||| tag == seq!['e', 'l', 'l', 'i', 'p', 's', 'e']
    ||| tag == line_tag()
    ||| tag == seq!['p', 'o', 'l', 'y', 'g', 'o', 'n']
    ||| tag == seq!['p', 'o', 'l', 'y', 'l', 'i', 'n', 'e']
    ||| tag == seq!['t', 'e', 'x', 't']
}

/// The value of the first attribute without a namespace named `name`.
pub open spec fn attribute_value(
    attributes: Seq<(Option<Seq<char>>, Seq<char>, Seq<char>)>,
    name: Seq<char>,
) -> Option<Seq<char>>
    decreases attributes.len(),
{
    if attributes.len() == 0 {
        None
    } else if attributes[0].0 is None && attributes[0].1 == name {
        Some(attributes[0].2)
    } else {
        attribute_value(attributes.drop_first(), name)
    }
}

/// What a node itself declares for a paint property: the declaration in
/// its `style` attribute, else its presentation attribute.
pub open spec fn declared_paint(
    node: (bool, Seq<char>, Seq<(Option<Seq<char>>, Seq<char>, Seq<char>)>, Option<usize>, bool, Option<Seq<char>>, usize),
    property: Seq<char>,
) -> Option<Seq<char>> {
    let style = match attribute_value(node.2, style_name()) {
        Some(s) => s,
        None => Seq::empty(),
    };
    match style_value(style, property) {
        Some(v) => Some(v),
        None => attribute_value(node.2, property),
    }
}

/// Whether a declared paint defers to the parent (`inherit`, trimmed, in
/// any ASCII case).
pub open spec fn is_inherit(value: Seq<char>) -> bool {
    lowercase(trim(value)) == seq!['i', 'n', 'h', 'e', 'r', 'i', 't']
}

/// Whether a paint is `none` (trimmed, in any ASCII case).
pub open spec fn is_none_paint(value: Seq<char>) -> bool {
    lowercase(trim(value)) == seq!['n', 'o', 'n', 'e']
}

/// The paint that node `i` inherits for a property: the declaration of the
/// nearest of the node and its element ancestors that declares the property
/// other than `inherit`. A parent that does not come before its child ends
/// the search.
pub open spec fn inherited_paint(
    nodes: Seq<(bool, Seq<char>, Seq<(Option<Seq<char>>, Seq<char>, Seq<char>)>, Option<usize>, bool, Option<Seq<char>>, usize)>,
    i: int,
    property: Seq<char>,
) -> Option<Seq<char>>
    decreases i,
{
    if !(0 <= i < nodes.len()) {
        None
    } else {
        let own = if nodes[i].0 {
            declared_paint(nodes[i], property)
        } else {
            None
        };
        if own is Some && !is_inherit(own->0) {
            own
        } else if nodes[i].3 is Some && (nodes[i].3->0 as int) < i {
            inherited_paint(nodes, nodes[i].3->0 as int, property)
        } else {
            None
        }
    }
}

/// What a paint property gives an element.
pub enum PaintOutcome {
    /// No paint, or `none`.
    Unpainted,
    /// A hex color, as six lowercase digits.
    Color(Seq<char>),
    /// A paint that is no hex color (trimmed).
    Unsupported(Seq<char>),
}

/// What a paint property gives node `i`, with the property's default where
/// nothing declares it.
pub open spec fn paint_outcome(
    nodes: Seq<(bool, Seq<char>, Seq<(Option<Seq<char>>, Seq<char>, Seq<char>)>, Option<usize>, bool, Option<Seq<char>>, usize)>,
    i: int,
    property: Seq<char>,
    default: Option<Seq<char>>,
) -> PaintOutcome {
    let paint = match inherited_paint(nodes, i, property) {
        Some(p) => Some(p),
        None => default,
    };
    match paint {
        None => PaintOutcome::Unpainted,
        Some(p) => if is_none_paint(p) {
            PaintOutcome::Unpainted
        } else {
            match normalized_hex(trim(p)) {
                Some(c) => PaintOutcome::Color(c),
                None => PaintOutcome::Unsupported(trim(p)),
            }
        },
    }
}

/// Whether a node is a drawn element.
pub open spec fn drawn(
    node: (bool, Seq<char>, Seq<(Option<Seq<char>>, Seq<char>, Seq<char>)>, Option<usize>, bool, Option<Seq<char>>, usize),
) -> bool {
    node.0 && is_drawn_tag(node.1)
}

/// The paint that node `i` is drawn with, property by property: fill
/// (black by default; a line has none) before stroke (none by default).
pub open spec fn node_paints(
    nodes: Seq<(bool, Seq<char>, Seq<(Option<Seq<char>>, Seq<char>, Seq<char>)>, Option<usize>, bool, Option<Seq<char>>, usize)>,
    i: int,
) -> Seq<(Seq<char>, PaintOutcome)> {
    let stroke = (stroke_name(), paint_outcome(nodes, i, stroke_name(), None));
    if !drawn(nodes[i]) {
        Seq::empty()
    } else if nodes[i].1 == line_tag() {
        seq![stroke]
    } else {
        seq![(fill_name(), paint_outcome(nodes, i, fill_name(), Some(black()))), stroke]
    }
}

/// The paint of the first `n` nodes, in document order.
pub open spec fn paints(
    nodes: Seq<(bool, Seq<char>, Seq<(Option<Seq<char>>, Seq<char>, Seq<char>)>, Option<usize>, bool, Option<Seq<char>>, usize)>,
    n: int,
) -> Seq<(Seq<char>, PaintOutcome)>
    decreases n,
{
    if n <= 0 {
        Seq::empty()
    } else {
        paints(nodes, n - 1) + node_paints(nodes, n - 1)
    }
}

/// Whether one of the paint outcomes is `color`.
pub open spec fn paints_color(events: Seq<(Seq<char>, PaintOutcome)>, color: Seq<char>) -> bool {
    exists|k: int| 0 <= k < events.len() && #[trigger] events[k].1 == PaintOutcome::Color(color)
}

/// Whether some drawn element is painted with `color`.
pub open spec fn painted(
    nodes: Seq<(bool, Seq<char>, Seq<(Option<Seq<char>>, Seq<char>, Seq<char>)>, Option<usize>, bool, Option<Seq<char>>, usize)>,
    color: Seq<char>,
) -> bool {
    paints_color(paints(nodes, nodes.len() as int), color)
}

/// The first unsupported paint, with its property.
pub open spec fn first_fault(events: Seq<(Seq<char>, PaintOutcome)>) -> Option<(Seq<char>, Seq<char>)>
    decreases events.len(),
{
    if events.len() == 0 {
        None
    } else {
        match events[0].1 {
            PaintOutcome::Unsupported(p) => Some((events[0].0, p)),
            _ => first_fault(events.drop_first()),
        }
    }
}

/// The first paint in document order that is no hex color, if any.
pub open spec fn paint_fault(
    nodes: Seq<(bool, Seq<char>, Seq<(Option<Seq<char>>, Seq<char>, Seq<char>)>, Option<usize>, bool, Option<Seq<char>>, usize)>,
) -> Option<(Seq<char>, Seq<char>)> {
    first_fault(paints(nodes, nodes.len() as int))
}

/// Whether a list of texts is in strictly increasing lexicographic order
/// (so no text occurs twice).
pub open spec fn strictly_sorted(s: Seq<Seq<char>>) -> bool {
    forall|i: int, j: int| 0 <= i < j < s.len() ==> chars_le(s[i], s[j]) && s[i] != s[j]
}

/// Whether `value`, trimmed and in ASCII lower case, is `keyword`.
fn is_keyword(value: &str, keyword: &str) -> (r: bool)
    ensures
        r == (lowercase(trim(value@)) == keyword@),
{
    let v = lowercase_chars(&trim_chars(&chars_of(value)));
    same_chars(&v, &chars_of(keyword))
}

/// Whether a tag names a drawn element.
fn drawn_tag(tag: &str) -> (r: bool)
    ensures
        r == is_drawn_tag(tag@),
{
    proof {
        reveal_strlit("path");
        reveal_strlit("rect");
        reveal_strlit("circle");
        reveal_strlit("ellipse");
        reveal_strlit("line");
        reveal_strlit("polygon");
        reveal_strlit("polyline");
        reveal_strlit("text");
    }
    let t = chars_of(tag);
    let r = same_chars(&t, &chars_of("path")) || same_chars(&t, &chars_of("rect")) || same_chars(
        &t,
        &chars_of("circle"),
    ) || same_chars(&t, &chars_of("ellipse")) || same_chars(&t, &chars_of("line")) || same_chars(
        &t,
        &chars_of("polygon"),
    ) || same_chars(&t, &chars_of("polyline")) || same_chars(&t, &chars_of("text"));
    assert("path"@ =~= seq!['p', 'a', 't', 'h']);
    assert("rect"@ =~= seq!['r', 'e', 'c', 't']);
    assert("circle"@ =~= seq!['c', 'i', 'r', 'c', 'l', 'e']);
    assert("ellipse"@ =~= seq!['e', 'l', 'l', 'i', 'p', 's', 'e']);
    assert("line"@ =~= line_tag());
    assert("polygon"@ =~= seq!['p', 'o', 'l', 'y', 'g', 'o', 'n']);
    assert("polyline"@ =~= seq!['p', 'o', 'l', 'y', 'l', 'i', 'n', 'e']);
    assert("text"@ =~= seq!['t', 'e', 'x', 't']);
    r
}

/// The value of the first attribute without a namespace named `name`.
pub fn attribute_of(attributes: &Vec<SvgAttribute>, name: &str) -> (r: Option<String>)
    ensures
        match attribute_value(attributes@.map_values(|a: SvgAttribute| a@), name@) {
            Some(v) => r matches Some(s) && s@ == v,
            None => r is None,
        },
{
    let ghost all = attributes@.map_values(|a: SvgAttribute| a@);
    let wanted = chars_of(name);
    let mut i: usize = 0;
    assert(all.skip(0) =~= all);
    while i < attributes.len()
        invariant
            i <= attributes.len(),
            all == attributes@.map_values(|a: SvgAttribute| a@),
            wanted@ == name@,
            attribute_value(all, name@) == attribute_value(all.skip(i as int), name@),
        decreases attributes.len() - i,
    {
        let a = &attributes[i];
        assert(all.skip(i as int)[0] == a@);
        assert(all.skip(i as int).drop_first() =~= all.skip(i + 1));
        if a.namespace.is_none() && same_chars(&chars_of(a.name.as_str()), &wanted) {
            return Some(a.value.clone());
        }
        i = i + 1;
    }
    assert(all.skip(i as int).len() == 0);
    None
}

/// What a node itself declares for a paint property.
fn declared_paint_of(node: &SvgNode, property: &str) -> (r: Option<String>)
    ensures
        match declared_paint(node@, property@) {
            Some(v) => r matches Some(s) && s@ == v,
            None => r is None,
        },
{
    proof {
        reveal_strlit("style");
        assert("style"@ =~= style_name());
    }
    let style = match attribute_of(&node.attributes, "style") {
        Some(s) => s,
        None => String::new(),
    };
    match style_property(style.as_str(), property) {
        Some(v) => Some(v),
        None => attribute_of(&node.attributes, property),
    }
}

/// The paint that node `i` inherits for a property.
fn inherited_paint_of(nodes: &Vec<SvgNode>, i: usize, property: &str) -> (r: Option<String>)
    requires
        i < nodes.len(),
    ensures
        match inherited_paint(nodes_view(nodes@), i as int, property@) {
            Some(v) => r matches Some(s) && s@ == v,
            None => r is None,
        },
{
    let ghost view = nodes_view(nodes@);
    proof {
        reveal_strlit("inherit");
        assert("inherit"@ =~= seq!['i', 'n', 'h', 'e', 'r', 'i', 't']);
    }
    let mut cur: usize = i;
    loop
        invariant
            cur < nodes.len(),
            view == nodes_view(nodes@),
            "inherit"@ == seq!['i', 'n', 'h', 'e', 'r', 'i', 't'],
            inherited_paint(view, i as int, property@) == inherited_paint(view, cur as int, property@),
        decreases cur,
    {
        let node = &nodes[cur];
        assert(view[cur as int] == node@);
        if node.element {
            match declared_paint_of(node, property) {
                Some(v) => {
                    if !is_keyword(v.as_str(), "inherit") {
                        return Some(v);
                    }
                },
                None => {},
            }
        }
        match node.parent {
            Some(p) => {
                if p < cur {
                    cur = p;
                } else {
                    return None;
                }
            },
            None => {
                return None;
            },
        }
    }
}

/// What a paint property gives node `i`: `Ok(None)` for no paint, the
/// color's six digits, or the unsupported paint as the error.
fn paint_of(nodes: &Vec<SvgNode>, i: usize, property: &str, default: Option<&str>) -> (r: Result<
    Option<String>,
    String,
>)
    requires
        i < nodes.len(),
    ensures
        match paint_outcome(
            nodes_view(nodes@),
            i as int,
            property@,
            match default {
                Some(d) => Some(d@),
                None => None,
            },
        ) {
            PaintOutcome::Unpainted => r matches Ok(None),
            PaintOutcome::Color(c) => r matches Ok(Some(s)) && s@ == c,
            PaintOutcome::Unsupported(p) => r matches Err(s) && s@ == p,
        },
{
    proof {
        reveal_strlit("none");
        assert("none"@ =~= seq!['n', 'o', 'n', 'e']);
    }
    let paint: Option<String> = match inherited_paint_of(nodes, i, property) {
        Some(p) => Some(p),
        None => match default {
            Some(d) => Some(d.to_owned()),
            None => None,
        },
    };
    match paint {
        None => Ok(None),
        Some(p) => {
            if is_keyword(p.as_str(), "none") {
                return Ok(None);
            }
            let t = string_of(&trim_chars(&chars_of(p.as_str())));
            match normalize_hex_color(t.as_str()) {
                Some(c) => Ok(Some(c)),
                None => Err(t),
            }
        },
    }
}

/// Adds a text to a strictly sorted list, where it is not in it yet.
fn insert_sorted(found: &mut Vec<Vec<char>>, c: Vec<char>)
    requires
        strictly_sorted(chars_view(old(found)@)),
    ensures
        strictly_sorted(chars_view(final(found)@)),
        forall|x: Seq<char>|
            chars_view(final(found)@).contains(x) <==> (chars_view(old(found)@).contains(x) || x
                == c@),
{
    let ghost s = chars_view(found@);
    let pos = insertion_point(found, &c);
    if pos > 0 && same_chars(&found[pos - 1], &c) {
        assert(s[pos - 1] == c@);
        return;
    }
    proof {
        assert forall|k: int| 0 <= k < pos implies #[trigger] s[k] != c@ by {
            if s[k] == c@ {
                assert(chars_le(s[k], s[pos - 1]) && s[k] != s[pos - 1]);
                lemma_chars_le_antisymmetric(s[k], s[pos - 1]);
            }
        }
        assert forall|k: int| pos <= k < s.len() implies !chars_le(#[trigger] s[k], c@) by {
            if chars_le(s[k], c@) {
                if k > pos {
                    lemma_chars_le_transitive(s[pos as int], s[k], c@);
                }
            }
        }
    }
    found.insert(pos, c);
    proof {
        let n = chars_view(found@);
        assert(n =~= s.insert(pos as int, c@));
        assert forall|i: int, j: int| 0 <= i < j < n.len() implies chars_le(n[i], n[j]) && n[i]
            != n[j] by {
            if j < pos {
                assert(n[i] == s[i] && n[j] == s[j]);
            } else if j == pos {
                assert(n[i] == s[i]);
            } else if i < pos {
                assert(n[i] == s[i] && n[j] == s[j - 1]);
            } else if i == pos {
                assert(n[j] == s[j - 1]);
                lemma_chars_le_total(s[j - 1], c@);
                lemma_chars_le_reflexive(c@);
            } else {
                assert(n[i] == s[i - 1] && n[j] == s[j - 1]);
            }
        }
        assert forall|x: Seq<char>| n.contains(x) <==> (s.contains(x) || x == c@) by {
            if n.contains(x) {
                let k = choose|k: int| 0 <= k < n.len() && n[k] == x;
                if k < pos {
                    assert(s[k] == x);
                } else if k > pos {
                    assert(s[k - 1] == x);
                }
            }
            if s.contains(x) {
                let k = choose|k: int| 0 <= k < s.len() && s[k] == x;
                if k < pos {
                    assert(n[k] == x);
                } else {
                    assert(n[k + 1] == x);
                }
            }
            if x == c@ {
                assert(n[pos as int] == x);
            }
        }
    }
}

proof fn lemma_first_fault_append(a: Seq<(Seq<char>, PaintOutcome)>, b: Seq<(Seq<char>, PaintOutcome)>)
    ensures
        first_fault(a + b) == if first_fault(a) is Some {
            first_fault(a)
        } else {
            first_fault(b)
        },
    decreases a.len(),
{
    if a.len() > 0 {
        assert((a + b).drop_first() =~= a.drop_first() + b);
        assert((a + b)[0] == a[0]);
        lemma_first_fault_append(a.drop_first(), b);
    } else {
        assert(a + b =~= b);
    }
}

proof fn lemma_paints_color_push(a: Seq<(Seq<char>, PaintOutcome)>, e: (Seq<char>, PaintOutcome))
    ensures
        forall|x: Seq<char>|
            paints_color(a.push(e), x) <==> (paints_color(a, x) || e.1 == PaintOutcome::Color(x)),
{
    assert forall|x: Seq<char>|
        paints_color(a.push(e), x) <==> (paints_color(a, x) || e.1 == PaintOutcome::Color(x)) by {
        if paints_color(a.push(e), x) {
            let k = choose|k: int|
                0 <= k < a.push(e).len() && #[trigger] a.push(e)[k].1 == PaintOutcome::Color(x);
            if k < a.len() {
                assert(a[k] == a.push(e)[k]);
            }
        }
        if paints_color(a, x) {
            let k = choose|k: int| 0 <= k < a.len() && #[trigger] a[k].1 == PaintOutcome::Color(x);
            assert(a.push(e)[k] == a[k]);
        }
        if e.1 == PaintOutcome::Color(x) {
            assert(a.push(e)[a.len() as int] == e);
        }
    }
}

proof fn lemma_fault_persists(
    nodes: Seq<(bool, Seq<char>, Seq<(Option<Seq<char>>, Seq<char>, Seq<char>)>, Option<usize>, bool, Option<Seq<char>>, usize)>,
    m: int,
    n: int,
)
    requires
        0 <= m <= n,
        first_fault(paints(nodes, m)) is Some,
    ensures
        first_fault(paints(nodes, n)) == first_fault(paints(nodes, m)),
    decreases n - m,
{
    if n > m {
        lemma_fault_persists(nodes, m, n - 1);
        lemma_first_fault_append(paints(nodes, n - 1), node_paints(nodes, n - 1));
    }
}

proof fn lemma_outcome_is_hex(
    nodes: Seq<(bool, Seq<char>, Seq<(Option<Seq<char>>, Seq<char>, Seq<char>)>, Option<usize>, bool, Option<Seq<char>>, usize)>,
    i: int,
    property: Seq<char>,
    default: Option<Seq<char>>,
)
    requires
        paint_outcome(nodes, i, property, default) is Color,
    ensures
        paint_outcome(nodes, i, property, default)->Color_0.len() == 6,
        forall|k: int|
            0 <= k < 6 ==> is_lower_hex(#[trigger] paint_outcome(nodes, i, property, default)->Color_0[k]),
{
    let paint = match inherited_paint(nodes, i, property) {
        Some(p) => Some(p),
        None => default,
    };
    lemma_normalized_is_lower_hex(trim(paint->0));
}

proof fn lemma_paints_are_hex(
    nodes: Seq<(bool, Seq<char>, Seq<(Option<Seq<char>>, Seq<char>, Seq<char>)>, Option<usize>, bool, Option<Seq<char>>, usize)>,
    n: int,
    k: int,
)
    requires
        0 <= k < paints(nodes, n).len(),
        paints(nodes, n)[k].1 is Color,
    ensures
        paints(nodes, n)[k].1->Color_0.len() == 6,
        forall|j: int| 0 <= j < 6 ==> is_lower_hex(#[trigger] paints(nodes, n)[k].1->Color_0[j]),
    decreases n,
{
    if n > 0 {
        let prev = paints(nodes, n - 1);
        let here = node_paints(nodes, n - 1);
        assert(paints(nodes, n) == prev + here);
        if k < prev.len() {
            assert(paints(nodes, n)[k] == prev[k]);
            lemma_paints_are_hex(nodes, n - 1, k);
        } else {
            let e = here[k - prev.len()];
            assert(paints(nodes, n)[k] == e);
            if here.len() == 2 && k - prev.len() == 0 {
                lemma_outcome_is_hex(nodes, n - 1, fill_name(), Some(black()));
            } else {
                lemma_outcome_is_hex(nodes, n - 1, stroke_name(), None);
            }
        }
    }
}

/// Every color that paint gives a drawn element is six lowercase hex
/// digits.
pub proof fn lemma_painted_colors_are_hex(
    nodes: Seq<(bool, Seq<char>, Seq<(Option<Seq<char>>, Seq<char>, Seq<char>)>, Option<usize>, bool, Option<Seq<char>>, usize)>,
    color: Seq<char>,
)
    requires
        painted(nodes, color),
    ensures
        color.len() == 6,
        forall|j: int| 0 <= j < 6 ==> is_lower_hex(#[trigger] color[j]),
{
    let events = paints(nodes, nodes.len() as int);
    let k = choose|k: int| 0 <= k < events.len() && #[trigger] events[k].1 == PaintOutcome::Color(color);
    lemma_paints_are_hex(nodes, nodes.len() as int, k);
}

proof fn lemma_paints_grow(
    nodes: Seq<(bool, Seq<char>, Seq<(Option<Seq<char>>, Seq<char>, Seq<char>)>, Option<usize>, bool, Option<Seq<char>>, usize)>,
    m: int,
    n: int,
    color: Seq<char>,
)
    requires
        0 <= m <= n,
        paints_color(paints(nodes, m), color),
    ensures
        paints_color(paints(nodes, n), color),
    decreases n - m,
{
    if n > m {
        lemma_paints_grow(nodes, m, n - 1, color);
        let a = paints(nodes, n - 1);
        let b = node_paints(nodes, n - 1);
        assert(paints(nodes, n) == a + b);
        let k = choose|k: int| 0 <= k < a.len() && #[trigger] a[k].1 == PaintOutcome::Color(color);
        assert((a + b)[k] == a[k]);
    }
}

/// Every shape element (`path`, `rect`, `circle`, `ellipse`, `line`,
/// `polygon`, `polyline`, `text`) is drawn: the hex color of its stroke, and
/// but for a line that of its fill, is among the colors of the SVG.
pub proof fn lemma_shapes_are_painted(
    nodes: Seq<(bool, Seq<char>, Seq<(Option<Seq<char>>, Seq<char>, Seq<char>)>, Option<usize>, bool, Option<Seq<char>>, usize)>,
    i: int,
    color: Seq<char>,
)
    requires
        0 <= i < nodes.len(),
        nodes[i].0,
        nodes[i].1 == "path"@ || nodes[i].1 == "rect"@ || nodes[i].1 == "circle"@ || nodes[i].1
            == "ellipse"@ || nodes[i].1 == "line"@ || nodes[i].1 == "polygon"@ || nodes[i].1
            == "polyline"@ || nodes[i].1 == "text"@,
        paint_outcome(nodes, i, stroke_name(), None) == PaintOutcome::Color(color) || (nodes[i].1
            != "line"@ && paint_outcome(nodes, i, fill_name(), Some(black())) == PaintOutcome::Color(
            color,
        )),
    ensures
        painted(nodes, color),
{
    reveal_strlit("path");
    reveal_strlit("rect");
    reveal_strlit("circle");
    reveal_strlit("ellipse");
    reveal_strlit("line");
    reveal_strlit("polygon");
    reveal_strlit("polyline");
    reveal_strlit("text");
    assert("path"@ =~= seq!['p', 'a', 't', 'h']);
    assert("rect"@ =~= seq!['r', 'e', 'c', 't']);
    assert("circle"@ =~= seq!['c', 'i', 'r', 'c', 'l', 'e']);
    assert("ellipse"@ =~= seq!['e', 'l', 'l', 'i', 'p', 's', 'e']);
    assert("line"@ =~= line_tag());
    assert("polygon"@ =~= seq!['p', 'o', 'l', 'y', 'g', 'o', 'n']);
    assert("polyline"@ =~= seq!['p', 'o', 'l', 'y', 'l', 'i', 'n', 'e']);
    assert("text"@ =~= seq!['t', 'e', 'x', 't']);
    assert(drawn(nodes[i]));
    let before = paints(nodes, i);
    let here = node_paints(nodes, i);
    assert(paints(nodes, i + 1) == before + here);
    let all = before + here;
    if paint_outcome(nodes, i, stroke_name(), None) == PaintOutcome::Color(color) {
        let k = here.len() - 1;
        assert(here[k].1 == PaintOutcome::Color(color));
        assert(all[before.len() + k] == here[k]);
    } else {
        assert(here[0].1 == PaintOutcome::Color(color));
        assert(all[before.len() as int] == here[0]);
    }
    assert(paints_color(paints(nodes, i + 1), color));
    lemma_paints_grow(nodes, i + 1, nodes.len() as int, color);
}

/// A paint of an SVG that is no hex color.
#[derive(Debug, Clone, PartialEq, Eq)]
pub struct PaintError {
    pub property: String,
    pub paint: String,
}

/// The colors that the drawn elements of a parsed SVG are painted with,
/// strictly sorted; or the first paint in document order that is no hex
/// color.
pub fn node_colors(nodes: &Vec<SvgNode>) -> (r: Result<Vec<String>, PaintError>)
    ensures
        match paint_fault(nodes_view(nodes@)) {
            Some(f) => r matches Err(e) && e.property@ == f.0 && e.paint@ == f.1,
            None => r matches Ok(colors) && strictly_sorted(strings_view(colors@)) && forall|
                c: Seq<char>,
            | strings_view(colors@).contains(c) <==> painted(nodes_view(nodes@), c),
        },
{
    let ghost view = nodes_view(nodes@);
    proof {
        reveal_strlit("fill");
        reveal_strlit("stroke");
        reveal_strlit("#000000");
        reveal_strlit("line");
        assert("fill"@ =~= fill_name());
        assert("stroke"@ =~= stroke_name());
        assert("#000000"@ =~= black());
        assert("line"@ =~= line_tag());
    }
    let mut found: Vec<Vec<char>> = Vec::new();
    let mut i: usize = 0;
    while i < nodes.len()
        invariant
            i <= nodes.len(),
            view == nodes_view(nodes@),
            "fill"@ == fill_name(),
            "stroke"@ == stroke_name(),
            "#000000"@ == black(),
            "line"@ == line_tag(),
            first_fault(paints(view, i as int)) is None,
            strictly_sorted(chars_view(found@)),
            forall|x: Seq<char>|
                chars_view(found@).contains(x) <==> paints_color(paints(view, i as int), x),
        decreases nodes.len() - i,
    {
        let node = &nodes[i];
        assert(view[i as int] == node@);
        let ghost before = paints(view, i as int);
        let ghost mut events: Seq<(Seq<char>, PaintOutcome)> = Seq::empty();
        assert(before + events =~= before);
        if node.element && drawn_tag(node.tag.as_str()) {
            let line = same_chars(&chars_of(node.tag.as_str()), &chars_of("line"));
            if !line {
                let fill = paint_of(nodes, i, "fill", Some("#000000"));
                let ghost e = (fill_name(), paint_outcome(view, i as int, fill_name(), Some(black())));
                proof {
                    lemma_first_fault_append(before, seq![e]);
                    lemma_paints_color_push(before, e);
                    assert(before.push(e) =~= before + seq![e]);
                    assert(seq![e][0] == e);
                    assert(seq![e].drop_first() =~= Seq::<(Seq<char>, PaintOutcome)>::empty());
                    assert(first_fault(Seq::<(Seq<char>, PaintOutcome)>::empty()) is None);
                }
                match fill {
                    Err(p) => {
                        proof {
                            let rest = seq![(stroke_name(), paint_outcome(view, i as int, stroke_name(), None))];
                            assert(node_paints(view, i as int) =~= seq![e] + rest);
                            assert(paints(view, i + 1) =~= (before + seq![e]) + rest);
                            lemma_first_fault_append(before + seq![e], rest);
                            lemma_fault_persists(view, i + 1, view.len() as int);
                        }
                        return Err(PaintError { property: "fill".to_owned(), paint: p });
                    },
                    Ok(Some(c)) => {
                        insert_sorted(&mut found, chars_of(c.as_str()));
                    },
                    Ok(None) => {},
                }
                proof {
                    events = seq![e];
                    assert(first_fault(before + events) is None);
                    assert(forall|x: Seq<char>|
                        chars_view(found@).contains(x) <==> paints_color(before + events, x));
                }
            }
            let stroke = paint_of(nodes, i, "stroke", None);
            let ghost e = (stroke_name(), paint_outcome(view, i as int, stroke_name(), None));
            proof {
                assert(before + events.push(e) =~= (before + events).push(e));
                assert(node_paints(view, i as int) =~= events.push(e));
                assert(paints(view, i + 1) =~= (before + events).push(e));
                lemma_first_fault_append(before + events, seq![e]);
                assert((before + events).push(e) =~= (before + events) + seq![e]);
                lemma_paints_color_push(before + events, e);
                assert(seq![e][0] == e);
                assert(seq![e].drop_first() =~= Seq::<(Seq<char>, PaintOutcome)>::empty());
                assert(first_fault(Seq::<(Seq<char>, PaintOutcome)>::empty()) is None);
            }
            match stroke {
                Err(p) => {
                    proof {
                        lemma_fault_persists(view, i + 1, view.len() as int);
                    }
                    return Err(PaintError { property: "stroke".to_owned(), paint: p });
                },
                Ok(Some(c)) => {
                    insert_sorted(&mut found, chars_of(c.as_str()));
                },
                Ok(None) => {},
            }
        } else {
            assert(node_paints(view, i as int) =~= Seq::<(Seq<char>, PaintOutcome)>::empty());
            assert(paints(view, i + 1) =~= before);
        }
        i = i + 1;
    }
    let mut colors: Vec<String> = Vec::new();
    let mut k: usize = 0;
    while k < found.len()
        invariant
            k <= found.len(),
            colors@.len() == k,
            strings_view(colors@) == chars_view(found@).take(k as int),
        decreases found.len() - k,
    {
        let text = string_of(&found[k]);
        assert(text@ == chars_view(found@)[k as int]);
        let ghost prev = colors@;
        colors.push(text);
        assert forall|j: int| 0 <= j < k + 1 implies strings_view(colors@)[j] == chars_view(
            found@,
        )[j] by {
            if j < k {
                assert(colors@[j] == prev[j]);
                assert(strings_view(prev)[j] == chars_view(found@).take(k as int)[j]);
            }
        }
        k = k + 1;
        assert(strings_view(colors@) =~= chars_view(found@).take(k as int));
    }
    assert(strings_view(colors@) =~= chars_view(found@));
    Ok(colors)
}

/// Why the colors of an SVG cannot be read.
#[derive(Debug, Clone, PartialEq, Eq)]
pub enum SvgColorError {
    /// The text is no XML; `detail` is the parser's report.
    InvalidXml { detail: String },
    /// A drawn element is painted with something that is no hex color.
    UnsupportedPaint { property: String, paint: String },
}

impl SvgColorError {
    /// The text that reports this error.
    pub fn message(&self) -> (m: String)
        ensures
            m@ == match self {
                SvgColorError::InvalidXml { .. } => "invalid SVG XML"@,
                SvgColorError::UnsupportedPaint { property, paint } => "unsupported "@ + property@
                    + " "@ + debug_quoted(paint@) + "; icon/template colors must use hex"@,
            },
    {
        match self {
            SvgColorError::InvalidXml { .. } => "invalid SVG XML".to_owned(),
            SvgColorError::UnsupportedPaint { property, paint } => {
                let mut m = String::new();
                push_str(&mut m, "unsupported ");
                push_str(&mut m, property.as_str());
                push_str(&mut m, " ");
                let quoted = debug_text(paint.as_str());
                push_str(&mut m, quoted.as_str());
                push_str(&mut m, "; icon/template colors must use hex");
                m
            },
        }
    }
}

/// Every hex color that fill or stroke paint gives a drawn element of an
/// SVG, inherited paint included, strictly sorted: what an automatic color
/// mapping numbers.
pub fn discover_colors(svg: &str) -> (r: Result<Vec<String>, SvgColorError>)
    ensures
        svg_nodes(svg@) is None <==> r matches Err(SvgColorError::InvalidXml { .. }),
        svg_nodes(svg@) matches Some(nodes) ==> match paint_fault(nodes) {
            Some(f) => r matches Err(SvgColorError::UnsupportedPaint { property, paint })
                && property@ == f.0 && paint@ == f.1,
            None => r matches Ok(colors) && strictly_sorted(strings_view(colors@)) && forall|
                c: Seq<char>,
            | strings_view(colors@).contains(c) <==> painted(nodes, c),
        },
{
    match parse_svg_nodes(svg) {
        Err(detail) => Err(SvgColorError::InvalidXml { detail }),
        Ok(nodes) => match node_colors(&nodes) {
            Ok(colors) => Ok(colors),
            Err(e) => Err(SvgColorError::UnsupportedPaint { property: e.property, paint: e.paint }),
        },
    }
}

} // verus!
