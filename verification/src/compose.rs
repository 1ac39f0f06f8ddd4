//! The parts of label composition that are pure text: which filaments a
//! label uses, and which style declarations carry a transform.
use vstd::prelude::*;
use crate::color::ColorMapping;
use crate::config::{LabelConfig, LabelError, LoadedLabel, TextValue, label_fault};
use crate::hexcolor::{trim, trim_chars};
use crate::palette::{sorted_distinct, strictly_increasing};
use crate::strings::{
    chars_of, find_char, first_index, prefix_chars, same_chars, split_chars, split_on, string_of,
};
use crate::text::{parse_colored_text, text_runs};

verus! {

/// The filaments of every run of every text field whose markup is valid.
pub open spec fn text_filaments(text: Seq<(String, TextValue)>) -> Seq<u32>
    decreases text.len(),
{
    if text.len() == 0 {
        seq![]
    } else {
        text_filaments(text.drop_last()) + match text_runs(text.last().1.content@) {
            Ok(runs) => runs.map_values(|r: (u32, Seq<char>)| r.0),
            Err(_) => seq![],
        }
    }
}

/// The filaments of a color mapping, in its order.
pub open spec fn mapping_filaments(mapping: ColorMapping) -> Seq<u32> {
    mapping.source_to_filament@.map_values(|e: (String, u32)| e.1)
}

/// The filaments of several color mappings, in order.
pub open spec fn mappings_filaments(mappings: Seq<ColorMapping>) -> Seq<u32>
    decreases mappings.len(),
{
    if mappings.len() == 0 {
        seq![]
    } else {
        mappings_filaments(mappings.drop_last()) + mapping_filaments(mappings.last())
    }
}

/// Every filament a label prints with: those of its template's colors, of
/// its text runs, and of its icons' colors.
pub open spec fn used_filaments(config: LabelConfig, template: ColorMapping, icons: Seq<ColorMapping>) -> Seq<u32> {
    mapping_filaments(template) + text_filaments(config.text@) + mappings_filaments(icons)
}

fn push_mapping(out: &mut Vec<u32>, mapping: &ColorMapping)
    ensures
        final(out)@ == old(out)@ + mapping_filaments(*mapping),
{
    let entries = &mapping.source_to_filament;
    let ghost start = out@;
    let mut i: usize = 0;
    while i < entries.len()
        invariant
            i <= entries.len(),
            out@ == start + entries@.take(i as int).map_values(|e: (String, u32)| e.1),
        decreases entries.len() - i,
    {
        out.push(entries[i].1);
        i = i + 1;
        assert(out@ =~= start + entries@.take(i as int).map_values(|e: (String, u32)| e.1));
    }
    assert(entries@.take(entries.len() as int) =~= entries@);
}

/// The filaments a label uses, distinct and in increasing order, after the
/// label's checks that need no asset; the caller gives the color mappings of
/// the template and of the label's icons.
pub fn label_filaments(label: &LoadedLabel, template_colors: &ColorMapping, icon_colors: &Vec<ColorMapping>) -> (r: Result<
    Vec<u32>,
    LabelError,
>)
    requires
        label.config.wf(),
    ensures
        match label_fault(label.config) {
            Some(f) => r matches Err(e) && e.view() == f,
            None => r matches Ok(v) && strictly_increasing(v@) && forall|x: u32|
                v@.contains(x) <==> used_filaments(label.config, *template_colors, icon_colors@).contains(x),
        },
{
    label.check_config()?;
    let mut all: Vec<u32> = Vec::new();
    push_mapping(&mut all, template_colors);
    let text = &label.config.text;
    let mut i: usize = 0;
    while i < text.len()
        invariant
            i <= text.len(),
            text == &label.config.text,
            all@ == mapping_filaments(*template_colors) + text_filaments(text@.take(i as int)),
        decreases text.len() - i,
    {
        assert(text@.take(i + 1).drop_last() =~= text@.take(i as int));
        let ghost before = all@;
        match parse_colored_text(text[i].1.content.as_str()) {
            Ok(runs) => {
                let mut k: usize = 0;
                while k < runs.len()
                    invariant
                        k <= runs.len(),
                        all@ == before + runs@.take(k as int).map_values(|r: crate::text::TextRun| r.filament),
                    decreases runs.len() - k,
                {
                    all.push(runs[k].filament);
                    k = k + 1;
                    assert(all@ =~= before + runs@.take(k as int).map_values(|r: crate::text::TextRun| r.filament));
                }
                assert(runs@.take(runs.len() as int) =~= runs@);
                assert(runs@.map_values(|r: crate::text::TextRun| r.filament) =~= crate::text::runs_view(runs@).map_values(|r: (u32, Seq<char>)| r.0));
            },
            Err(_) => {},
        }
        i = i + 1;
    }
    assert(text@.take(text.len() as int) =~= text@);
    let mut m: usize = 0;
    while m < icon_colors.len()
        invariant
            m <= icon_colors.len(),
            all@ == mapping_filaments(*template_colors) + text_filaments(label.config.text@)
                + mappings_filaments(icon_colors@.take(m as int)),
        decreases icon_colors.len() - m,
    {
        assert(icon_colors@.take(m + 1).drop_last() =~= icon_colors@.take(m as int));
        let ghost before = all@;
        push_mapping(&mut all, &icon_colors[m]);
        m = m + 1;
        assert(all@ =~= mapping_filaments(*template_colors) + text_filaments(label.config.text@)
            + mappings_filaments(icon_colors@.take(m as int)));
    }
    assert(icon_colors@.take(icon_colors.len() as int) =~= icon_colors@);
    Ok(sorted_distinct(all.as_slice()))
}

/// Whether a declaration name is one of the transform properties.
pub open spec fn is_transform_property(name: Seq<char>) -> bool {
    name == "transform"@ || name == "transform-origin"@ || name == "transform-box"@
}

/// The trimmed declarations of a style that set a transform property.
pub open spec fn transform_declarations(declarations: Seq<Seq<char>>) -> Seq<Seq<char>>
    decreases declarations.len(),
{
    if declarations.len() == 0 {
        seq![]
    } else {
        let d = declarations.last();
        transform_declarations(declarations.drop_last()) + match first_index(d, ':') {
            Some(k) => if is_transform_property(trim(d.take(k))) {
                seq![trim(d)]
            } else {
                seq![]
            },
            None => seq![],
        }
    }
}

/// Pieces joined with a separator between each two.
pub open spec fn joined_with(parts: Seq<Seq<char>>, sep: char) -> Seq<char>
    decreases parts.len(),
{
    if parts.len() == 0 {
        seq![]
    } else if parts.len() == 1 {
        parts[0]
    } else {
        joined_with(parts.drop_last(), sep) + seq![sep] + parts.last()
    }
}

/// The transform declarations of an inline style, joined by `;`, or `None`
/// when it has none.
pub fn transform_style(style: &str) -> (r: Option<String>)
    ensures
        transform_declarations(split_on(style@, ';')).len() == 0 ==> r is None,
        transform_declarations(split_on(style@, ';')).len() > 0 ==> (r matches Some(s) && s@
            == joined_with(transform_declarations(split_on(style@, ';')), ';')),
{
    let declarations = split_chars(&chars_of(style), ';');
    let ghost all = split_on(style@, ';');
    proof {
        reveal_strlit("transform");
        reveal_strlit("transform-origin");
        reveal_strlit("transform-box");
    }
    let transform = chars_of("transform");
    let origin = chars_of("transform-origin");
    let boxed = chars_of("transform-box");
    let mut kept: Vec<char> = Vec::new();
    let mut count: usize = 0;
    let mut i: usize = 0;
    while i < declarations.len()
        invariant
            i <= declarations.len(),
            all.len() == declarations@.len(),
            forall|k: int| 0 <= k < declarations@.len() ==> #[trigger] declarations@[k]@ == all[k],
            transform@ == "transform"@,
            origin@ == "transform-origin"@,
            boxed@ == "transform-box"@,
            count == transform_declarations(all.take(i as int)).len(),
            count <= i,
            kept@ == joined_with(transform_declarations(all.take(i as int)), ';'),
        decreases declarations.len() - i,
    {
        let declaration = &declarations[i];
        assert(all.take(i + 1).drop_last() =~= all.take(i as int));
        assert(all.take(i + 1).last() == declaration@);
        let ghost before = transform_declarations(all.take(i as int));
        match find_char(declaration, ':') {
            None => {
                assert(transform_declarations(all.take(i + 1)) =~= before);
            },
            Some(k) => {
                let name = trim_chars(&prefix_chars(declaration, k));
                if same_chars(&name, &transform) || same_chars(&name, &origin) || same_chars(
                    &name,
                    &boxed,
                ) {
                    let whole = trim_chars(declaration);
                    assert(transform_declarations(all.take(i + 1)) =~= before.push(whole@));
                    if count > 0 {
                        kept.push(';');
                    }
                    let mut j: usize = 0;
                    let ghost base = kept@;
                    while j < whole.len()
                        invariant
                            j <= whole.len(),
                            kept@ == base + whole@.take(j as int),
                        decreases whole.len() - j,
                    {
                        kept.push(whole[j]);
                        j = j + 1;
                        assert(kept@ =~= base + whole@.take(j as int));
                    }
                    assert(whole@.take(whole.len() as int) =~= whole@);
                    proof {
                        let next = before.push(whole@);
                        assert(next.drop_last() =~= before);
                        if before.len() == 0 {
                            assert(joined_with(before, ';') =~= Seq::<char>::empty());
                            assert(kept@ =~= whole@);
                        }
                    }
                    count = count + 1;
                } else {
                    assert(transform_declarations(all.take(i + 1)) =~= before);
                }
            },
        }
        i = i + 1;
    }
    assert(all.take(declarations.len() as int) =~= all);
    if count == 0 {
        None
    } else {
        Some(string_of(&kept))
    }
}

} // verus!
