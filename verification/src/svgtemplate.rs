//! The structure of a label template SVG: its root element, and the text
//! fields and icon boxes that its elements declare through their ids.
use vstd::prelude::*;
use crate::strings::{
    debug_quoted, debug_text, decimal_digits, decimal_string, has_prefix, push_str, starts_with,
    string_of, chars_of, suffix_chars,
};
use crate::svgcolors::{attribute_of, attribute_value, nodes_view, parse_svg_nodes, svg_nodes, SvgAttribute, SvgNode};

verus! {

pub open spec fn id_name() -> Seq<char> {
    seq!['i', 'd']
}

pub open spec fn text_prefix() -> Seq<char> {
    seq!['t', 'e', 'x', 't', '-']
}

pub open spec fn icons_prefix() -> Seq<char> {
    seq!['i', 'c', 'o', 'n', 's', '-']
}

pub open spec fn svg_tag() -> Seq<char> {
    seq!['s', 'v', 'g']
}

pub open spec fn text_tag() -> Seq<char> {
    seq!['t', 'e', 'x', 't']
}

pub open spec fn rect_tag() -> Seq<char> {
    seq!['r', 'e', 'c', 't']
}

/// The attributes of a node as plain values.
pub open spec fn attributes_view(attributes: Seq<SvgAttribute>) -> Seq<
    (Option<Seq<char>>, Seq<char>, Seq<char>),
> {
    attributes.map_values(|a: SvgAttribute| a@)
}

/// A text field or an icon box that an element of a template declares.
pub enum TemplateSlot {
    /// A `<text>` element with id `text-NAME`, with its text as the default.
    Text { name: String, default: String },
    /// A `<rect>` element with id `icons-NAME`, with its attributes.
    IconBox { name: String, attributes: Vec<SvgAttribute> },
}

/// A declared slot as plain values.
pub enum SlotView {
    Text(Seq<char>, Seq<char>),
    IconBox(Seq<char>, Seq<(Option<Seq<char>>, Seq<char>, Seq<char>)>),
}

impl TemplateSlot {
    pub open spec fn view(&self) -> SlotView {
        match self {
            TemplateSlot::Text { name, default } => SlotView::Text(name@, default@),
            TemplateSlot::IconBox { name, attributes } => SlotView::IconBox(
                name@,
                attributes_view(attributes@),
            ),
        }
    }
}

pub open spec fn slots_view(slots: Seq<TemplateSlot>) -> Seq<SlotView> {
    slots.map_values(|s: TemplateSlot| s.view())
}

/// Why a template's structure is refused.
#[derive(Debug, Clone, PartialEq, Eq)]
pub enum TemplateError {
    /// The text is no XML; `detail` is the parser's report.
    InvalidXml { detail: String },
    /// The root element is no `<svg>`.
    NotSvg,
    /// Two elements share an id; the byte offsets of both.
    DuplicateId { id: String, previous: usize, start: usize },
    /// An id is `text-` alone.
    EmptyTextName,
    /// A `text-` id on an element other than `<text>`.
    NotText { id: String },
    /// An id is `icons-` alone.
    EmptyIconName,
    /// An `icons-` id on an element other than `<rect>`.
    NotRect { id: String },
}

/// A refusal of a template's ids as plain values.
pub enum TemplateFault {
    DuplicateId(Seq<char>, usize, usize),
    EmptyTextName,
    NotText(Seq<char>),
    EmptyIconName,
    NotRect(Seq<char>),
}

impl TemplateError {
    pub open spec fn fault(&self) -> Option<TemplateFault> {
        match self {
            TemplateError::DuplicateId { id, previous, start } => Some(
                TemplateFault::DuplicateId(id@, *previous, *start),
            ),
            TemplateError::EmptyTextName => Some(TemplateFault::EmptyTextName),
            TemplateError::NotText { id } => Some(TemplateFault::NotText(id@)),
            TemplateError::EmptyIconName => Some(TemplateFault::EmptyIconName),
            TemplateError::NotRect { id } => Some(TemplateFault::NotRect(id@)),
            _ => None,
        }
    }
}

/// The position of the first element, in document order: the root element.
pub open spec fn first_element(
    nodes: Seq<(bool, Seq<char>, Seq<(Option<Seq<char>>, Seq<char>, Seq<char>)>, Option<usize>, bool, Option<Seq<char>>, usize)>,
    i: int,
) -> Option<int>
    decreases nodes.len() - i,
{
    if i < 0 || i >= nodes.len() {
        None
    } else if nodes[i].0 {
        Some(i)
    } else {
        first_element(nodes, i + 1)
    }
}

/// Whether node `j` lies inside node `i`, by its chain of parents.
pub open spec fn descends(
    nodes: Seq<(bool, Seq<char>, Seq<(Option<Seq<char>>, Seq<char>, Seq<char>)>, Option<usize>, bool, Option<Seq<char>>, usize)>,
    j: int,
    i: int,
) -> bool
    decreases j,
{
    if !(0 <= j < nodes.len()) {
        false
    } else if nodes[j].3 is Some && (nodes[j].3->0 as int) < j {
        nodes[j].3->0 == i || descends(nodes, nodes[j].3->0 as int, i)
    } else {
        false
    }
}

/// What node `k` adds to the text inside node `i`.
pub open spec fn text_piece(
    nodes: Seq<(bool, Seq<char>, Seq<(Option<Seq<char>>, Seq<char>, Seq<char>)>, Option<usize>, bool, Option<Seq<char>>, usize)>,
    i: int,
    k: int,
) -> Seq<char> {
    if descends(nodes, k, i) && nodes[k].4 && nodes[k].5 is Some {
        nodes[k].5->0
    } else {
        Seq::empty()
    }
}

/// The text of the text nodes inside node `i` among the first `j` nodes, in
/// document order.
pub open spec fn inner_text(
    nodes: Seq<(bool, Seq<char>, Seq<(Option<Seq<char>>, Seq<char>, Seq<char>)>, Option<usize>, bool, Option<Seq<char>>, usize)>,
    i: int,
    j: int,
) -> Seq<char>
    decreases j,
{
    if j <= 0 {
        Seq::empty()
    } else {
        inner_text(nodes, i, j - 1) + text_piece(nodes, i, j - 1)
    }
}

/// Where an id was first seen, if it was.
pub open spec fn seen_at(seen: Seq<(Seq<char>, usize)>, id: Seq<char>) -> Option<usize>
    decreases seen.len(),
{
    if seen.len() == 0 {
        None
    } else if seen[0].0 == id {
        Some(seen[0].1)
    } else {
        seen_at(seen.drop_first(), id)
    }
}

/// Reads the ids of the elements from node `i` on, with `seen` the ids met
/// so far and where, and `slots` the slots declared so far: the declared
/// slots, and the first refused id, if any.
pub open spec fn slot_scan(
    nodes: Seq<(bool, Seq<char>, Seq<(Option<Seq<char>>, Seq<char>, Seq<char>)>, Option<usize>, bool, Option<Seq<char>>, usize)>,
    i: int,
    seen: Seq<(Seq<char>, usize)>,
    slots: Seq<SlotView>,
) -> (Seq<SlotView>, Option<TemplateFault>)
    decreases nodes.len() - i,
{
    if i < 0 || i >= nodes.len() {
        (slots, None)
    } else if !nodes[i].0 || attribute_value(nodes[i].2, id_name()) is None {
        slot_scan(nodes, i + 1, seen, slots)
    } else {
        let id = attribute_value(nodes[i].2, id_name())->0;
        if seen_at(seen, id) is Some {
            (slots, Some(TemplateFault::DuplicateId(id, seen_at(seen, id)->0, nodes[i].6)))
        } else {
            let seen2 = seen.push((id, nodes[i].6));
            if has_prefix(id, text_prefix()) {
                if id.len() == text_prefix().len() {
                    (slots, Some(TemplateFault::EmptyTextName))
                } else if nodes[i].1 != text_tag() {
                    (slots, Some(TemplateFault::NotText(id)))
                } else {
                    slot_scan(
                        nodes,
                        i + 1,
                        seen2,
                        slots.push(
                            SlotView::Text(
                                id.skip(text_prefix().len() as int),
                                inner_text(nodes, i, nodes.len() as int),
                            ),
                        ),
                    )
                }
            } else if has_prefix(id, icons_prefix()) {
                if id.len() == icons_prefix().len() {
                    (slots, Some(TemplateFault::EmptyIconName))
                } else if nodes[i].1 != rect_tag() {
                    (slots, Some(TemplateFault::NotRect(id)))
                } else {
                    slot_scan(
                        nodes,
                        i + 1,
                        seen2,
                        slots.push(SlotView::IconBox(id.skip(icons_prefix().len() as int), nodes[i].2)),
                    )
                }
            } else {
                slot_scan(nodes, i + 1, seen2, slots)
            }
        }
    }
}

/// The slots that a template's elements declare, in document order, and the
/// first refused id.
pub open spec fn template_slots(
    nodes: Seq<(bool, Seq<char>, Seq<(Option<Seq<char>>, Seq<char>, Seq<char>)>, Option<usize>, bool, Option<Seq<char>>, usize)>,
) -> (Seq<SlotView>, Option<TemplateFault>) {
    slot_scan(nodes, 0, Seq::empty(), Seq::empty())
}

/// The structure of a template whose root is an `<svg>` element.
pub struct TemplateStructure {
    /// The attributes of the root element.
    pub root_attributes: Vec<SvgAttribute>,
    /// The slots declared before the first refused id, in document order.
    pub slots: Vec<TemplateSlot>,
    /// The first refused id; it is reported after any problem of the slots
    /// before it.
    pub fault: Option<TemplateError>,
}

/// The ids met so far, with where, as plain values.
pub open spec fn seen_view(seen: Seq<(String, usize)>) -> Seq<(Seq<char>, usize)> {
    seen.map_values(|p: (String, usize)| (p.0@, p.1))
}

/// A copy of a node's attributes.
fn copy_attributes(attributes: &Vec<SvgAttribute>) -> (r: Vec<SvgAttribute>)
    ensures
        attributes_view(r@) == attributes_view(attributes@),
{
    let mut r: Vec<SvgAttribute> = Vec::new();
    let mut i: usize = 0;
    while i < attributes.len()
        invariant
            i <= attributes.len(),
            attributes_view(r@) == attributes_view(attributes@).take(i as int),
        decreases attributes.len() - i,
    {
        let a = &attributes[i];
        let namespace = match &a.namespace {
            Some(n) => Some(n.clone()),
            None => None,
        };
        let copy = SvgAttribute { namespace, name: a.name.clone(), value: a.value.clone() };
        assert(copy@ == a@);
        let ghost before = r@;
        r.push(copy);
        assert(attributes_view(r@) =~= attributes_view(before).push(copy@));
        i = i + 1;
        assert(attributes_view(r@) =~= attributes_view(attributes@).take(i as int));
    }
    assert(attributes_view(attributes@).take(i as int) =~= attributes_view(attributes@));
    r
}

/// Whether node `k` lies inside node `i`.
fn is_inside(nodes: &Vec<SvgNode>, k: usize, i: usize) -> (r: bool)
    requires
        k < nodes.len(),
    ensures
        r == descends(nodes_view(nodes@), k as int, i as int),
{
    let ghost view = nodes_view(nodes@);
    let mut cur: usize = k;
    loop
        invariant
            cur < nodes.len(),
            view == nodes_view(nodes@),
            descends(view, k as int, i as int) == descends(view, cur as int, i as int),
        decreases cur,
    {
        assert(view[cur as int] == nodes[cur as int]@);
        match nodes[cur].parent {
            Some(p) => {
                if p < cur {
                    if p == i {
                        return true;
                    }
                    cur = p;
                } else {
                    return false;
                }
            },
            None => {
                return false;
            },
        }
    }
}

/// The text of the text nodes inside node `i`, in document order.
fn inner_text_of(nodes: &Vec<SvgNode>, i: usize) -> (r: String)
    ensures
        r@ == inner_text(nodes_view(nodes@), i as int, nodes@.len() as int),
{
    let ghost view = nodes_view(nodes@);
    let mut r = String::new();
    let mut k: usize = 0;
    while k < nodes.len()
        invariant
            k <= nodes.len(),
            view == nodes_view(nodes@),
            r@ == inner_text(view, i as int, k as int),
        decreases nodes.len() - k,
    {
        assert(view[k as int] == nodes[k as int]@);
        if is_inside(nodes, k, i) && nodes[k].text_node {
            match &nodes[k].text {
                Some(t) => {
                    push_str(&mut r, t.as_str());
                },
                None => {},
            }
        }
        k = k + 1;
    }
    r
}

/// Where an id was first seen, if it was.
fn find_seen(seen: &Vec<(String, usize)>, id: &str) -> (r: Option<usize>)
    ensures
        r == seen_at(seen_view(seen@), id@),
{
    let ghost all = seen_view(seen@);
    let wanted = chars_of(id);
    let mut i: usize = 0;
    assert(all.skip(0) =~= all);
    while i < seen.len()
        invariant
            i <= seen.len(),
            all == seen_view(seen@),
            wanted@ == id@,
            seen_at(all, id@) == seen_at(all.skip(i as int), id@),
        decreases seen.len() - i,
    {
        assert(all.skip(i as int)[0] == (seen@[i as int].0@, seen@[i as int].1));
        assert(all.skip(i as int).drop_first() =~= all.skip(i + 1));
        if crate::strings::same_chars(&chars_of(seen[i].0.as_str()), &wanted) {
            return Some(seen[i].1);
        }
        i = i + 1;
    }
    assert(all.skip(i as int).len() == 0);
    None
}

/// The slots that the elements of a parsed template declare, in document
/// order up to the first refused id, and that id's refusal.
pub fn node_slots(nodes: &Vec<SvgNode>) -> (r: (Vec<TemplateSlot>, Option<TemplateError>))
    ensures
        slots_view(r.0@) == template_slots(nodes_view(nodes@)).0,
        match template_slots(nodes_view(nodes@)).1 {
            None => r.1 is None,
            Some(f) => r.1 matches Some(e) && e.fault() == Some(f),
        },
{
    let ghost view = nodes_view(nodes@);
    proof {
        reveal_strlit("id");
        reveal_strlit("text-");
        reveal_strlit("icons-");
        reveal_strlit("text");
        reveal_strlit("rect");
        assert("id"@ =~= id_name());
        assert("text-"@ =~= text_prefix());
        assert("icons-"@ =~= icons_prefix());
        assert("text"@ =~= text_tag());
        assert("rect"@ =~= rect_tag());
    }
    let mut seen: Vec<(String, usize)> = Vec::new();
    let mut slots: Vec<TemplateSlot> = Vec::new();
    let mut i: usize = 0;
    assert(seen_view(seen@) =~= Seq::<(Seq<char>, usize)>::empty());
    assert(slots_view(slots@) =~= Seq::<SlotView>::empty());
    while i < nodes.len()
        invariant
            i <= nodes.len(),
            view == nodes_view(nodes@),
            "id"@ == id_name(),
            "text-"@ == text_prefix(),
            "icons-"@ == icons_prefix(),
            "text"@ == text_tag(),
            "rect"@ == rect_tag(),
            template_slots(view) == slot_scan(view, i as int, seen_view(seen@), slots_view(slots@)),
        decreases nodes.len() - i,
    {
        let node = &nodes[i];
        assert(view[i as int] == node@);
        if node.element {
            match attribute_of(&node.attributes, "id") {
                None => {},
                Some(id) => {
                    match find_seen(&seen, id.as_str()) {
                        Some(p) => {
                            return (
                                slots,
                                Some(TemplateError::DuplicateId { id, previous: p, start: node.position }),
                            );
                        },
                        None => {},
                    }
                    let ghost seen_before = seen@;
                    seen.push((id.clone(), node.position));
                    assert(seen_view(seen@) =~= seen_view(seen_before).push((id@, node.position)));
                    let chars = chars_of(id.as_str());
                    if starts_with(id.as_str(), "text-") {
                        if chars.len() == 5 {
                            return (slots, Some(TemplateError::EmptyTextName));
                        }
                        if !crate::strings::same_chars(&chars_of(node.tag.as_str()), &chars_of("text")) {
                            return (slots, Some(TemplateError::NotText { id }));
                        }
                        let name = string_of(&suffix_chars(&chars, 5));
                        let default = inner_text_of(nodes, i);
                        let ghost before = slots@;
                        let slot = TemplateSlot::Text { name, default };
                        slots.push(slot);
                        assert(slots_view(slots@) =~= slots_view(before).push(slot.view()));
                    } else if starts_with(id.as_str(), "icons-") {
                        if chars.len() == 6 {
                            return (slots, Some(TemplateError::EmptyIconName));
                        }
                        if !crate::strings::same_chars(&chars_of(node.tag.as_str()), &chars_of("rect")) {
                            return (slots, Some(TemplateError::NotRect { id }));
                        }
                        let name = string_of(&suffix_chars(&chars, 6));
                        let attributes = copy_attributes(&node.attributes);
                        let ghost before = slots@;
                        let slot = TemplateSlot::IconBox { name, attributes };
                        slots.push(slot);
                        assert(slots_view(slots@) =~= slots_view(before).push(slot.view()));
                    }
                },
            }
        }
        i = i + 1;
    }
    (slots, None)
}

/// Whether the root element of the nodes is an `<svg>` element.
pub open spec fn svg_rooted(
    nodes: Seq<(bool, Seq<char>, Seq<(Option<Seq<char>>, Seq<char>, Seq<char>)>, Option<usize>, bool, Option<Seq<char>>, usize)>,
) -> bool {
    first_element(nodes, 0) is Some && nodes[first_element(nodes, 0)->0].1 == svg_tag()
}

/// The structure of a label template: its root must be an `<svg>` element;
/// then the root's attributes, and the slots that its elements declare
/// through their ids, up to the first refused id.
pub fn template_structure(svg: &str) -> (r: Result<TemplateStructure, TemplateError>)
    ensures
        svg_nodes(svg@) is None <==> r matches Err(TemplateError::InvalidXml { .. }),
        svg_nodes(svg@) matches Some(nodes) ==> (!svg_rooted(nodes) ==> r matches Err(
            TemplateError::NotSvg,
        )) && (svg_rooted(nodes) ==> (r matches Ok(t) && attributes_view(t.root_attributes@)
            == nodes[first_element(nodes, 0)->0].2 && slots_view(t.slots@) == template_slots(
            nodes,
        ).0 && match template_slots(nodes).1 {
            None => t.fault is None,
            Some(f) => t.fault matches Some(e) && e.fault() == Some(f),
        })),
{
    let nodes = match parse_svg_nodes(svg) {
        Err(detail) => {
            return Err(TemplateError::InvalidXml { detail });
        },
        Ok(nodes) => nodes,
    };
    let ghost view = nodes_view(nodes@);
    proof {
        reveal_strlit("svg");
        assert("svg"@ =~= svg_tag());
    }
    let mut k: usize = 0;
    while k < nodes.len() && !nodes[k].element
        invariant
            k <= nodes.len(),
            view == nodes_view(nodes@),
            first_element(view, 0) == first_element(view, k as int),
        decreases nodes.len() - k,
    {
        assert(view[k as int] == nodes[k as int]@);
        k = k + 1;
    }
    if k == nodes.len() {
        return Err(TemplateError::NotSvg);
    }
    assert(view[k as int] == nodes[k as int]@);
    if !crate::strings::same_chars(&chars_of(nodes[k].tag.as_str()), &chars_of("svg")) {
        return Err(TemplateError::NotSvg);
    }
    let root_attributes = copy_attributes(&nodes[k].attributes);
    let (slots, fault) = node_slots(&nodes);
    Ok(TemplateStructure { root_attributes, slots, fault })
}

impl TemplateError {
    /// The text that reports this error.
    pub fn message(&self) -> (m: String)
        ensures
            m@ == match self {
                TemplateError::InvalidXml { .. } => "invalid SVG XML"@,
                TemplateError::NotSvg => "root element must be <svg>"@,
                TemplateError::DuplicateId { id, previous, start } => "duplicate SVG id "@
                    + debug_quoted(id@) + " at bytes "@ + decimal_digits(*previous as nat) + " and "@
                    + decimal_digits(*start as nat),
                TemplateError::EmptyTextName => "text field id must contain a name after `text-`"@,
                TemplateError::NotText { id } => "configurable element "@ + debug_quoted(id@)
                    + " must be a <text> element"@,
                TemplateError::EmptyIconName => "icon box id must contain a name after `icons-`"@,
                TemplateError::NotRect { id } => "icon box "@ + debug_quoted(id@)
                    + " must be a <rect> element"@,
            },
    {
        let mut m = String::new();
        match self {
            TemplateError::InvalidXml { .. } => push_str(&mut m, "invalid SVG XML"),
            TemplateError::NotSvg => push_str(&mut m, "root element must be <svg>"),
            TemplateError::DuplicateId { id, previous, start } => {
                push_str(&mut m, "duplicate SVG id ");
                let quoted = debug_text(id.as_str());
                push_str(&mut m, quoted.as_str());
                push_str(&mut m, " at bytes ");
                let first = decimal_string(*previous as u64);
                push_str(&mut m, first.as_str());
                push_str(&mut m, " and ");
                let second = decimal_string(*start as u64);
                push_str(&mut m, second.as_str());
            },
            TemplateError::EmptyTextName => push_str(
                &mut m,
                "text field id must contain a name after `text-`",
            ),
            TemplateError::NotText { id } => {
                push_str(&mut m, "configurable element ");
                let quoted = debug_text(id.as_str());
                push_str(&mut m, quoted.as_str());
                push_str(&mut m, " must be a <text> element");
            },
            TemplateError::EmptyIconName => push_str(
                &mut m,
                "icon box id must contain a name after `icons-`",
            ),
            TemplateError::NotRect { id } => {
                push_str(&mut m, "icon box ");
                let quoted = debug_text(id.as_str());
                push_str(&mut m, quoted.as_str());
                push_str(&mut m, " must be a <rect> element");
            },
        }
        m
    }
}

} // verus!
