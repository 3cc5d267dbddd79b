//! The displayed forms of a relation answer.
use crate::catalog_presentation::opt_json;
use crate::domain::{kind_name, RelationItem, RelationItemV, RelationResponse};
use crate::format::OutputFormat;
use crate::order::opt_view;
use crate::render::{
    block, decimal, field, json_quoted, push_decimal, quote, render_block, render_field,
};
use crate::text::{push_char, push_text};
use vstd::prelude::*;

verus! {

pub open spec fn item_json(it: RelationItemV) -> Seq<char> {
    block(
        '{',
        '}',
        seq![
            field("\"id\""@, json_quoted(it.id)),
            field("\"path\""@, opt_json(it.path)),
            field("\"resolved\""@, if it.resolved { "true"@ } else { "false"@ }),
        ],
        2,
    )
}

pub open spec fn item_views(r: RelationResponse) -> Seq<RelationItemV> {
    r.items@.map_values(|it: RelationItem| it@)
}

pub open spec fn missing_views(r: RelationResponse) -> Seq<Seq<char>> {
    r.meta.missing_nodes@.map_values(|s: String| s@)
}

/// The structured form: command, query identifier, count, the items, and
/// the missing nodes, followed by a line break.
pub open spec fn response_json(r: RelationResponse) -> Seq<char> {
    block(
        '{',
        '}',
        seq![
            field("\"command\""@, json_quoted(kind_name(r.command))),
            field("\"query_id\""@, json_quoted(r.query_id@)),
            field("\"count\""@, decimal(r.count as nat)),
            field("\"items\""@, block('[', ']', item_views(r).map_values(|it: RelationItemV| item_json(it)), 1)),
            field(
                "\"meta\""@,
                block(
                    '{',
                    '}',
                    seq![field("\"missing_nodes\""@, block('[', ']', missing_views(r).map_values(|s: Seq<char>| json_quoted(s)), 2))],
                    1,
                ),
            ),
        ],
        0,
    ) + seq!['\n']
}

/// The textual form: one item identifier per line.
pub open spec fn text_lines(items: Seq<RelationItemV>) -> Seq<char>
    decreases items.len(),
{
    if items.len() == 0 {
        seq![]
    } else {
        text_lines(items.drop_last()) + items.last().id + seq!['\n']
    }
}

pub open spec fn response_output(r: RelationResponse, format: OutputFormat) -> Seq<char> {
    match format {
        OutputFormat::Text => text_lines(item_views(r)),
        OutputFormat::Json => response_json(r),
    }
}

/// Writes a relation answer in the chosen form.
pub fn write(response: &RelationResponse, format: OutputFormat) -> (r: String)
    ensures
        r@ == response_output(*response, format),
{
    match format {
        OutputFormat::Text => write_text(response),
        OutputFormat::Json => write_json(response),
    }
}

fn item_json_exec(it: &RelationItem) -> (r: String)
    ensures
        r@ == item_json(it@),
{
    let mut fields: Vec<String> = Vec::new();
    fields.push(render_field("\"id\"", quote(it.id.as_str())));
    let path = match &it.path {
        Some(p) => quote(p.as_str()),
        None => "null".to_owned(),
    };
    assert(path@ == opt_json(opt_view(it.path)));
    fields.push(render_field("\"path\"", path));
    let flag = if it.resolved {
        "true".to_owned()
    } else {
        "false".to_owned()
    };
    fields.push(render_field("\"resolved\"", flag));
    assert(fields@.map_values(|x: String| x@) =~= seq![
        field("\"id\""@, json_quoted(it@.id)),
        field("\"path\""@, opt_json(it@.path)),
        field("\"resolved\""@, if it@.resolved { "true"@ } else { "false"@ }),
    ]);
    render_block('{', '}', &fields, 2)
}

/// Writes a relation answer in its structured form.
pub fn write_json(response: &RelationResponse) -> (r: String)
    ensures
        r@ == response_json(*response),
{
    let ghost its = item_views(*response);
    let mut items: Vec<String> = Vec::new();
    let mut i: usize = 0;
    while i < response.items.len()
        invariant
            i <= response.items.len(),
            its == item_views(*response),
            items@.map_values(|x: String| x@) == its.take(i as int).map_values(
                |it: RelationItemV| item_json(it),
            ),
        decreases response.items.len() - i,
    {
        let ghost before = items@.map_values(|x: String| x@);
        let s = item_json_exec(&response.items[i]);
        items.push(s);
        assert(items@.map_values(|x: String| x@) =~= before.push(s@));
        assert(its.take(i + 1) =~= its.take(i as int).push(its[i as int]));
        i = i + 1;
        assert(items@.map_values(|x: String| x@) =~= its.take(i as int).map_values(
            |it: RelationItemV| item_json(it),
        ));
    }
    assert(its.take(i as int) =~= its);
    let ghost ms = missing_views(*response);
    let mut missing: Vec<String> = Vec::new();
    let mut i: usize = 0;
    while i < response.meta.missing_nodes.len()
        invariant
            i <= response.meta.missing_nodes.len(),
            ms == missing_views(*response),
            missing@.map_values(|x: String| x@) == ms.take(i as int).map_values(
                |s: Seq<char>| json_quoted(s),
            ),
        decreases response.meta.missing_nodes.len() - i,
    {
        let ghost before = missing@.map_values(|x: String| x@);
        let s = quote(response.meta.missing_nodes[i].as_str());
        missing.push(s);
        assert(missing@.map_values(|x: String| x@) =~= before.push(s@));
        assert(ms.take(i + 1) =~= ms.take(i as int).push(ms[i as int]));
        i = i + 1;
        assert(missing@.map_values(|x: String| x@) =~= ms.take(i as int).map_values(
            |s: Seq<char>| json_quoted(s),
        ));
    }
    assert(ms.take(i as int) =~= ms);
    let mut meta: Vec<String> = Vec::new();
    meta.push(render_field("\"missing_nodes\"", render_block('[', ']', &missing, 2)));
    let mut count = String::new();
    push_decimal(&mut count, response.count);
    let mut top: Vec<String> = Vec::new();
    top.push(render_field("\"command\"", quote(response.command.as_str())));
    top.push(render_field("\"query_id\"", quote(response.query_id.as_str())));
    top.push(render_field("\"count\"", count));
    top.push(render_field("\"items\"", render_block('[', ']', &items, 1)));
    top.push(render_field("\"meta\"", render_block('{', '}', &meta, 1)));
    assert(meta@.map_values(|x: String| x@) =~= seq![field("\"missing_nodes\""@, block('[', ']', ms.map_values(|s: Seq<char>| json_quoted(s)), 2))]);
    assert(top@.map_values(|x: String| x@) =~= seq![
        field("\"command\""@, json_quoted(kind_name(response.command))),
        field("\"query_id\""@, json_quoted(response.query_id@)),
        field("\"count\""@, decimal(response.count as nat)),
        field("\"items\""@, block('[', ']', its.map_values(|it: RelationItemV| item_json(it)), 1)),
        field(
            "\"meta\""@,
            block(
                '{',
                '}',
                seq![field("\"missing_nodes\""@, block('[', ']', ms.map_values(|s: Seq<char>| json_quoted(s)), 2))],
                1,
            ),
        ),
    ]);
    let mut out = render_block('{', '}', &top, 0);
    push_char(&mut out, '\n');
    out
}

/// Writes a relation answer as text, one item identifier per line.
pub fn write_text(response: &RelationResponse) -> (r: String)
    ensures
        r@ == text_lines(item_views(*response)),
{
    let ghost its = item_views(*response);
    let mut out = String::new();
    let mut i: usize = 0;
    while i < response.items.len()
        invariant
            i <= response.items.len(),
            its == item_views(*response),
            out@ == text_lines(its.take(i as int)),
        decreases response.items.len() - i,
    {
        push_text(&mut out, response.items[i].id.as_str());
        push_char(&mut out, '\n');
        proof {
            let t = its.take(i + 1);
            assert(t.drop_last() =~= its.take(i as int));
            assert(t.last() == its[i as int]);
        }
        i = i + 1;
    }
    assert(its.take(i as int) =~= its);
    out
}

} // verus!
