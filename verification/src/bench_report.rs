//! The results of a benchmark as a JSON document.

use crate::text::{decimal, push_decimal};
use vstd::prelude::*;
use vstd::string::*;

verus! {

/// What the report says of the index.
#[derive(Debug, Clone, Copy, PartialEq, Eq, Structural)]
pub struct IndexFacts {
    pub num_points: usize,
    pub dims: usize,
    pub max_degree: usize,
    pub node_len: u64,
    pub block_size: u64,
    pub elem_size: usize,
}

/// The measurements of one search width. Fractional numbers come as they are to be shown.
pub struct MetricsRow {
    pub search_l: usize,
    pub recall_at_10: String,
    pub qps: String,
    pub avg_us: String,
    pub p50_us: String,
    pub p95_us: String,
    pub p99_us: String,
    pub avg_dist_comps: String,
    pub avg_vec_reads: String,
}

/// The measurements of one benchmark.
pub struct BenchResult {
    pub name: String,
    pub rows: Vec<MetricsRow>,
}

/// The name of the element type.
pub open spec fn element_name(elem_size: usize) -> Seq<char> {
    if elem_size == 1 {
        "int8"@
    } else {
        "float32"@
    }
}

/// The part of the report on the index.
pub open spec fn index_text(f: IndexFacts) -> Seq<char> {
    "{\n  \"index\": {\n    \"num_points\": "@ + decimal(f.num_points as nat)
        + ",\n    \"dims\": "@ + decimal(f.dims as nat) + ",\n    \"max_degree\": "@ + decimal(
        f.max_degree as nat,
    ) + ",\n    \"node_len\": "@ + decimal(f.node_len as nat) + ",\n    \"block_size\": "@
        + decimal(f.block_size as nat) + ",\n    \"elem_size\": "@ + decimal(f.elem_size as nat)
        + ",\n    \"data_type\": \""@ + element_name(f.elem_size) + "\"\n  },\n"@
}

/// The measurements of one search width, without what follows them.
pub open spec fn row_text(r: MetricsRow) -> Seq<char> {
    "        {\n          \"search_L\": "@ + decimal(r.search_l as nat)
        + ",\n          \"recall_at_10\": "@ + r.recall_at_10@ + ",\n          \"qps\": "@ + r.qps@
        + ",\n          \"avg_us\": "@ + r.avg_us@ + ",\n          \"p50_us\": "@ + r.p50_us@
        + ",\n          \"p95_us\": "@ + r.p95_us@ + ",\n          \"p99_us\": "@ + r.p99_us@
        + ",\n          \"avg_dist_comps\": "@ + r.avg_dist_comps@
        + ",\n          \"avg_vec_reads\": "@ + r.avg_vec_reads@ + "\n        }"@
}

/// What stands between an item and the next, or behind the last one.
pub open spec fn separator(last: bool) -> Seq<char> {
    if last {
        "\n"@
    } else {
        ",\n"@
    }
}

/// The first `n` measurements, each with what follows it.
pub open spec fn rows_text(rows: Seq<MetricsRow>, n: nat) -> Seq<char>
    decreases n,
{
    if n == 0 {
        Seq::empty()
    } else {
        rows_text(rows, (n - 1) as nat) + row_text(rows[n - 1]) + separator(n == rows.len())
    }
}

/// A benchmark, without what follows it.
pub open spec fn result_text(b: BenchResult) -> Seq<char> {
    "    {\n      \"name\": \""@ + b.name@ + "\",\n      \"results\": [\n"@ + rows_text(
        b.rows@,
        b.rows@.len(),
    ) + "      ]\n    }"@
}

/// The first `n` benchmarks, each with what follows it.
pub open spec fn results_text(results: Seq<BenchResult>, n: nat) -> Seq<char>
    decreases n,
{
    if n == 0 {
        Seq::empty()
    } else {
        results_text(results, (n - 1) as nat) + result_text(results[n - 1]) + separator(
            n == results.len(),
        )
    }
}

/// The whole report.
pub open spec fn report_text(facts: IndexFacts, results: Seq<BenchResult>) -> Seq<char> {
    index_text(facts) + "  \"benchmarks\": [\n"@ + results_text(results, results.len())
        + "  ]\n}\n"@
}

/// Appends the part on the index.
fn push_index(out: &mut String, f: &IndexFacts)
    ensures
        final(out)@ == old(out)@ + index_text(*f),
{
    out.append("{\n  \"index\": {\n    \"num_points\": ");
    push_decimal(out, f.num_points as u64);
    out.append(",\n    \"dims\": ");
    push_decimal(out, f.dims as u64);
    out.append(",\n    \"max_degree\": ");
    push_decimal(out, f.max_degree as u64);
    out.append(",\n    \"node_len\": ");
    push_decimal(out, f.node_len);
    out.append(",\n    \"block_size\": ");
    push_decimal(out, f.block_size);
    out.append(",\n    \"elem_size\": ");
    push_decimal(out, f.elem_size as u64);
    out.append(",\n    \"data_type\": \"");
    if f.elem_size == 1 {
        out.append("int8");
    } else {
        out.append("float32");
    }
    out.append("\"\n  },\n");
    assert(out@ =~= old(out)@ + index_text(*f));
}

/// Appends the measurements of one search width.
fn push_row(out: &mut String, r: &MetricsRow)
    ensures
        final(out)@ == old(out)@ + row_text(*r),
{
    out.append("        {\n          \"search_L\": ");
    push_decimal(out, r.search_l as u64);
    out.append(",\n          \"recall_at_10\": ");
    out.append(r.recall_at_10.as_str());
    out.append(",\n          \"qps\": ");
    out.append(r.qps.as_str());
    out.append(",\n          \"avg_us\": ");
    out.append(r.avg_us.as_str());
    out.append(",\n          \"p50_us\": ");
    out.append(r.p50_us.as_str());
    out.append(",\n          \"p95_us\": ");
    out.append(r.p95_us.as_str());
    out.append(",\n          \"p99_us\": ");
    out.append(r.p99_us.as_str());
    out.append(",\n          \"avg_dist_comps\": ");
    out.append(r.avg_dist_comps.as_str());
    out.append(",\n          \"avg_vec_reads\": ");
    out.append(r.avg_vec_reads.as_str());
    out.append("\n        }");
    assert(out@ =~= old(out)@ + row_text(*r));
}

/// Appends what follows an item.
fn push_separator(out: &mut String, last: bool)
    ensures
        final(out)@ == old(out)@ + separator(last),
{
    if last {
        out.append("\n");
    } else {
        out.append(",\n");
    }
}

/// Appends a benchmark.
fn push_result(out: &mut String, b: &BenchResult)
    ensures
        final(out)@ == old(out)@ + result_text(*b),
{
    out.append("    {\n      \"name\": \"");
    out.append(b.name.as_str());
    out.append("\",\n      \"results\": [\n");
    let ghost start = out@;
    for i in 0..b.rows.len()
        invariant
            out@ == start + rows_text(b.rows@, i as nat),
    {
        let ghost before = out@;
        push_row(out, &b.rows[i]);
        push_separator(out, i + 1 == b.rows.len());
        assert(out@ =~= start + rows_text(b.rows@, (i + 1) as nat));
    }
    out.append("      ]\n    }");
    assert(out@ =~= old(out)@ + result_text(*b));
}

/// The report of a run.
pub fn render_report(facts: &IndexFacts, results: &Vec<BenchResult>) -> (report: String)
    ensures
        report@ == report_text(*facts, results@),
{
    let mut out = String::new();
    push_index(&mut out, facts);
    out.append("  \"benchmarks\": [\n");
    let ghost start = out@;
    assert(start =~= index_text(*facts) + "  \"benchmarks\": [\n"@);
    for i in 0..results.len()
        invariant
            out@ == start + results_text(results@, i as nat),
    {
        push_result(&mut out, &results[i]);
        push_separator(&mut out, i + 1 == results.len());
        assert(out@ =~= start + results_text(results@, (i + 1) as nat));
    }
    out.append("  ]\n}\n");
    assert(out@ =~= report_text(*facts, results@));
    out
}

/// Whether a text holds another.
pub open spec fn says(text: Seq<char>, what: Seq<char>) -> bool {
    exists|front: Seq<char>, back: Seq<char>| text == #[trigger] (front + what + back)
}

/// A text holds what stands between two parts of it.
proof fn lemma_says(text: Seq<char>, front: Seq<char>, what: Seq<char>, back: Seq<char>)
    requires
        text =~= front + what + back,
    ensures
        says(text, what),
{
}

/// A text that is held by another holds no less there.
proof fn lemma_says_through(text: Seq<char>, mid: Seq<char>, what: Seq<char>)
    requires
        says(text, mid),
        says(mid, what),
    ensures
        says(text, what),
{
    let (a, b) = choose|front: Seq<char>, back: Seq<char>| text == #[trigger] (front + mid + back);
    let (c, d) = choose|front: Seq<char>, back: Seq<char>| mid == #[trigger] (front + what + back);
    lemma_says(text, a + c, what, d + b);
}

/// Texts one behind the other.
pub open spec fn glued(parts: Seq<Seq<char>>) -> Seq<char>
    decreases parts.len(),
{
    if parts.len() == 0 {
        Seq::empty()
    } else {
        glued(parts.drop_last()) + parts.last()
    }
}

/// One more text comes behind the others.
proof fn lemma_glued(parts: Seq<Seq<char>>, part: Seq<char>)
    ensures
        glued(parts.push(part)) == glued(parts) + part,
        glued(Seq::empty()) == Seq::<char>::empty(),
{
    assert(parts.push(part).drop_last() =~= parts);
}

/// Where a text ends with a key, and the one behind the next starts with an end, the key, the
/// text between the two and the end are said.
proof fn lemma_field_is_said(
    parts: Seq<Seq<char>>,
    k: int,
    front: Seq<char>,
    key: Seq<char>,
    end: Seq<char>,
    back: Seq<char>,
)
    requires
        0 <= k,
        k + 2 < parts.len(),
        parts[k] == front + key,
        parts[k + 2] == end + back,
    ensures
        says(glued(parts), key + parts[k + 1] + end),
    decreases parts.len(),
{
    let rest = parts.drop_last();
    let what = key + parts[k + 1] + end;
    if k + 3 < parts.len() {
        lemma_field_is_said(rest, k, front, key, end, back);
        lemma_says(glued(parts), Seq::empty(), glued(rest), parts.last());
        lemma_says_through(glued(parts), glued(rest), what);
    } else {
        reveal_with_fuel(glued, 4);
        let one = parts.take(k);
        assert(rest.drop_last().drop_last() =~= one);
        assert(glued(parts) == glued(one) + parts[k] + parts[k + 1] + parts[k + 2]);
        lemma_says(glued(parts), glued(one) + front, what, back);
    }
}

/// A row of the report gives each measurement behind its own key.
pub proof fn law_rows_give_each_measurement(r: MetricsRow)
    ensures
        says(row_text(r), "\"search_L\": "@ + decimal(r.search_l as nat) + ",\n"@),
        says(row_text(r), "\"recall_at_10\": "@ + r.recall_at_10@ + ",\n"@),
        says(row_text(r), "\"qps\": "@ + r.qps@ + ",\n"@),
        says(row_text(r), "\"avg_us\": "@ + r.avg_us@ + ",\n"@),
        says(row_text(r), "\"p50_us\": "@ + r.p50_us@ + ",\n"@),
        says(row_text(r), "\"p95_us\": "@ + r.p95_us@ + ",\n"@),
        says(row_text(r), "\"p99_us\": "@ + r.p99_us@ + ",\n"@),
        says(row_text(r), "\"avg_dist_comps\": "@ + r.avg_dist_comps@ + ",\n"@),
        says(row_text(r), "\"avg_vec_reads\": "@ + r.avg_vec_reads@ + "\n"@),
{
    let p0 = Seq::<Seq<char>>::empty();
    let p1 = p0.push("        {\n          \"search_L\": "@);
    lemma_glued(p0, "        {\n          \"search_L\": "@);
    let p2 = p1.push(decimal(r.search_l as nat));
    lemma_glued(p1, decimal(r.search_l as nat));
    let p3 = p2.push(",\n          \"recall_at_10\": "@);
    lemma_glued(p2, ",\n          \"recall_at_10\": "@);
    let p4 = p3.push(r.recall_at_10@);
    lemma_glued(p3, r.recall_at_10@);
    let p5 = p4.push(",\n          \"qps\": "@);
    lemma_glued(p4, ",\n          \"qps\": "@);
    let p6 = p5.push(r.qps@);
    lemma_glued(p5, r.qps@);
    let p7 = p6.push(",\n          \"avg_us\": "@);
    lemma_glued(p6, ",\n          \"avg_us\": "@);
    let p8 = p7.push(r.avg_us@);
    lemma_glued(p7, r.avg_us@);
    let p9 = p8.push(",\n          \"p50_us\": "@);
    lemma_glued(p8, ",\n          \"p50_us\": "@);
    let p10 = p9.push(r.p50_us@);
    lemma_glued(p9, r.p50_us@);
    let p11 = p10.push(",\n          \"p95_us\": "@);
    lemma_glued(p10, ",\n          \"p95_us\": "@);
    let p12 = p11.push(r.p95_us@);
    lemma_glued(p11, r.p95_us@);
    let p13 = p12.push(",\n          \"p99_us\": "@);
    lemma_glued(p12, ",\n          \"p99_us\": "@);
    let p14 = p13.push(r.p99_us@);
    lemma_glued(p13, r.p99_us@);
    let p15 = p14.push(",\n          \"avg_dist_comps\": "@);
    lemma_glued(p14, ",\n          \"avg_dist_comps\": "@);
    let p16 = p15.push(r.avg_dist_comps@);
    lemma_glued(p15, r.avg_dist_comps@);
    let p17 = p16.push(",\n          \"avg_vec_reads\": "@);
    lemma_glued(p16, ",\n          \"avg_vec_reads\": "@);
    let p18 = p17.push(r.avg_vec_reads@);
    lemma_glued(p17, r.avg_vec_reads@);
    let p19 = p18.push("\n        }"@);
    lemma_glued(p18, "\n        }"@);
    assert(glued(p1) == "        {\n          \"search_L\": "@) by {
        assert(Seq::<char>::empty() + "        {\n          \"search_L\": "@ =~= "        {\n          \"search_L\": "@);
    }
    assert(glued(p19) == row_text(r));
    assert("        {\n          \"search_L\": "@ == "        {\n          \"search_L\": "@.take(20) + "\"search_L\": "@) by {
        reveal_strlit("        {\n          \"search_L\": ");
        reveal_strlit("\"search_L\": ");
        assert("        {\n          \"search_L\": "@ =~= "        {\n          \"search_L\": "@.take(20) + "\"search_L\": "@);
    }
    assert(",\n          \"recall_at_10\": "@ == ",\n"@ + ",\n          \"recall_at_10\": "@.skip(2)) by {
        reveal_strlit(",\n          \"recall_at_10\": ");
        reveal_strlit(",\n");
        assert(",\n          \"recall_at_10\": "@ =~= ",\n"@ + ",\n          \"recall_at_10\": "@.skip(2));
    }
    lemma_field_is_said(
        p19,
        0,
        "        {\n          \"search_L\": "@.take(20),
        "\"search_L\": "@,
        ",\n"@,
        ",\n          \"recall_at_10\": "@.skip(2),
    );
    assert(",\n          \"recall_at_10\": "@ == ",\n          \"recall_at_10\": "@.take(12) + "\"recall_at_10\": "@) by {
        reveal_strlit(",\n          \"recall_at_10\": ");
        reveal_strlit("\"recall_at_10\": ");
        assert(",\n          \"recall_at_10\": "@ =~= ",\n          \"recall_at_10\": "@.take(12) + "\"recall_at_10\": "@);
    }
    assert(",\n          \"qps\": "@ == ",\n"@ + ",\n          \"qps\": "@.skip(2)) by {
        reveal_strlit(",\n          \"qps\": ");
        reveal_strlit(",\n");
        assert(",\n          \"qps\": "@ =~= ",\n"@ + ",\n          \"qps\": "@.skip(2));
    }
    lemma_field_is_said(
        p19,
        2,
        ",\n          \"recall_at_10\": "@.take(12),
        "\"recall_at_10\": "@,
        ",\n"@,
        ",\n          \"qps\": "@.skip(2),
    );
    assert(",\n          \"qps\": "@ == ",\n          \"qps\": "@.take(12) + "\"qps\": "@) by {
        reveal_strlit(",\n          \"qps\": ");
        reveal_strlit("\"qps\": ");
        assert(",\n          \"qps\": "@ =~= ",\n          \"qps\": "@.take(12) + "\"qps\": "@);
    }
    assert(",\n          \"avg_us\": "@ == ",\n"@ + ",\n          \"avg_us\": "@.skip(2)) by {
        reveal_strlit(",\n          \"avg_us\": ");
        reveal_strlit(",\n");
        assert(",\n          \"avg_us\": "@ =~= ",\n"@ + ",\n          \"avg_us\": "@.skip(2));
    }
    lemma_field_is_said(
        p19,
        4,
        ",\n          \"qps\": "@.take(12),
        "\"qps\": "@,
        ",\n"@,
        ",\n          \"avg_us\": "@.skip(2),
    );
    assert(",\n          \"avg_us\": "@ == ",\n          \"avg_us\": "@.take(12) + "\"avg_us\": "@) by {
        reveal_strlit(",\n          \"avg_us\": ");
        reveal_strlit("\"avg_us\": ");
        assert(",\n          \"avg_us\": "@ =~= ",\n          \"avg_us\": "@.take(12) + "\"avg_us\": "@);
    }
    assert(",\n          \"p50_us\": "@ == ",\n"@ + ",\n          \"p50_us\": "@.skip(2)) by {
        reveal_strlit(",\n          \"p50_us\": ");
        reveal_strlit(",\n");
        assert(",\n          \"p50_us\": "@ =~= ",\n"@ + ",\n          \"p50_us\": "@.skip(2));
    }
    lemma_field_is_said(
        p19,
        6,
        ",\n          \"avg_us\": "@.take(12),
        "\"avg_us\": "@,
        ",\n"@,
        ",\n          \"p50_us\": "@.skip(2),
    );
    assert(",\n          \"p50_us\": "@ == ",\n          \"p50_us\": "@.take(12) + "\"p50_us\": "@) by {
        reveal_strlit(",\n          \"p50_us\": ");
        reveal_strlit("\"p50_us\": ");
        assert(",\n          \"p50_us\": "@ =~= ",\n          \"p50_us\": "@.take(12) + "\"p50_us\": "@);
    }
    assert(",\n          \"p95_us\": "@ == ",\n"@ + ",\n          \"p95_us\": "@.skip(2)) by {
        reveal_strlit(",\n          \"p95_us\": ");
        reveal_strlit(",\n");
        assert(",\n          \"p95_us\": "@ =~= ",\n"@ + ",\n          \"p95_us\": "@.skip(2));
    }
    lemma_field_is_said(
        p19,
        8,
        ",\n          \"p50_us\": "@.take(12),
        "\"p50_us\": "@,
        ",\n"@,
        ",\n          \"p95_us\": "@.skip(2),
    );
    assert(",\n          \"p95_us\": "@ == ",\n          \"p95_us\": "@.take(12) + "\"p95_us\": "@) by {
        reveal_strlit(",\n          \"p95_us\": ");
        reveal_strlit("\"p95_us\": ");
        assert(",\n          \"p95_us\": "@ =~= ",\n          \"p95_us\": "@.take(12) + "\"p95_us\": "@);
    }
    assert(",\n          \"p99_us\": "@ == ",\n"@ + ",\n          \"p99_us\": "@.skip(2)) by {
        reveal_strlit(",\n          \"p99_us\": ");
        reveal_strlit(",\n");
        assert(",\n          \"p99_us\": "@ =~= ",\n"@ + ",\n          \"p99_us\": "@.skip(2));
    }
    lemma_field_is_said(
        p19,
        10,
        ",\n          \"p95_us\": "@.take(12),
        "\"p95_us\": "@,
        ",\n"@,
        ",\n          \"p99_us\": "@.skip(2),
    );
    assert(",\n          \"p99_us\": "@ == ",\n          \"p99_us\": "@.take(12) + "\"p99_us\": "@) by {
        reveal_strlit(",\n          \"p99_us\": ");
        reveal_strlit("\"p99_us\": ");
        assert(",\n          \"p99_us\": "@ =~= ",\n          \"p99_us\": "@.take(12) + "\"p99_us\": "@);
    }
    assert(",\n          \"avg_dist_comps\": "@ == ",\n"@ + ",\n          \"avg_dist_comps\": "@.skip(2)) by {
        reveal_strlit(",\n          \"avg_dist_comps\": ");
        reveal_strlit(",\n");
        assert(",\n          \"avg_dist_comps\": "@ =~= ",\n"@ + ",\n          \"avg_dist_comps\": "@.skip(2));
    }
    lemma_field_is_said(
        p19,
        12,
        ",\n          \"p99_us\": "@.take(12),
        "\"p99_us\": "@,
        ",\n"@,
        ",\n          \"avg_dist_comps\": "@.skip(2),
    );
    assert(",\n          \"avg_dist_comps\": "@ == ",\n          \"avg_dist_comps\": "@.take(12) + "\"avg_dist_comps\": "@) by {
        reveal_strlit(",\n          \"avg_dist_comps\": ");
        reveal_strlit("\"avg_dist_comps\": ");
        assert(",\n          \"avg_dist_comps\": "@ =~= ",\n          \"avg_dist_comps\": "@.take(12) + "\"avg_dist_comps\": "@);
    }
    assert(",\n          \"avg_vec_reads\": "@ == ",\n"@ + ",\n          \"avg_vec_reads\": "@.skip(2)) by {
        reveal_strlit(",\n          \"avg_vec_reads\": ");
        reveal_strlit(",\n");
        assert(",\n          \"avg_vec_reads\": "@ =~= ",\n"@ + ",\n          \"avg_vec_reads\": "@.skip(2));
    }
    lemma_field_is_said(
        p19,
        14,
        ",\n          \"avg_dist_comps\": "@.take(12),
        "\"avg_dist_comps\": "@,
        ",\n"@,
        ",\n          \"avg_vec_reads\": "@.skip(2),
    );
    assert(",\n          \"avg_vec_reads\": "@ == ",\n          \"avg_vec_reads\": "@.take(12) + "\"avg_vec_reads\": "@) by {
        reveal_strlit(",\n          \"avg_vec_reads\": ");
        reveal_strlit("\"avg_vec_reads\": ");
        assert(",\n          \"avg_vec_reads\": "@ =~= ",\n          \"avg_vec_reads\": "@.take(12) + "\"avg_vec_reads\": "@);
    }
    assert("\n        }"@ == "\n"@ + "\n        }"@.skip(1)) by {
        reveal_strlit("\n        }");
        reveal_strlit("\n");
        assert("\n        }"@ =~= "\n"@ + "\n        }"@.skip(1));
    }
    lemma_field_is_said(
        p19,
        16,
        ",\n          \"avg_vec_reads\": "@.take(12),
        "\"avg_vec_reads\": "@,
        "\n"@,
        "\n        }"@.skip(1),
    );
}

/// The report gives each fact on the index behind its own key, and the name of the element type:
/// `int8` for single bytes, else `float32`.
pub proof fn law_facts_are_given_under_their_keys(f: IndexFacts)
    ensures
        says(index_text(f), "\"num_points\": "@ + decimal(f.num_points as nat) + ",\n"@),
        says(index_text(f), "\"dims\": "@ + decimal(f.dims as nat) + ",\n"@),
        says(index_text(f), "\"max_degree\": "@ + decimal(f.max_degree as nat) + ",\n"@),
        says(index_text(f), "\"node_len\": "@ + decimal(f.node_len as nat) + ",\n"@),
        says(index_text(f), "\"block_size\": "@ + decimal(f.block_size as nat) + ",\n"@),
        says(index_text(f), "\"elem_size\": "@ + decimal(f.elem_size as nat) + ",\n"@),
        f.elem_size == 1 ==> says(index_text(f), "\"data_type\": \""@ + "int8"@ + "\""@),
        f.elem_size != 1 ==> says(index_text(f), "\"data_type\": \""@ + "float32"@ + "\""@),
{
    let p0 = Seq::<Seq<char>>::empty();
    let p1 = p0.push("{\n  \"index\": {\n    \"num_points\": "@);
    lemma_glued(p0, "{\n  \"index\": {\n    \"num_points\": "@);
    let p2 = p1.push(decimal(f.num_points as nat));
    lemma_glued(p1, decimal(f.num_points as nat));
    let p3 = p2.push(",\n    \"dims\": "@);
    lemma_glued(p2, ",\n    \"dims\": "@);
    let p4 = p3.push(decimal(f.dims as nat));
    lemma_glued(p3, decimal(f.dims as nat));
    let p5 = p4.push(",\n    \"max_degree\": "@);
    lemma_glued(p4, ",\n    \"max_degree\": "@);
    let p6 = p5.push(decimal(f.max_degree as nat));
    lemma_glued(p5, decimal(f.max_degree as nat));
    let p7 = p6.push(",\n    \"node_len\": "@);
    lemma_glued(p6, ",\n    \"node_len\": "@);
    let p8 = p7.push(decimal(f.node_len as nat));
    lemma_glued(p7, decimal(f.node_len as nat));
    let p9 = p8.push(",\n    \"block_size\": "@);
    lemma_glued(p8, ",\n    \"block_size\": "@);
    let p10 = p9.push(decimal(f.block_size as nat));
    lemma_glued(p9, decimal(f.block_size as nat));
    let p11 = p10.push(",\n    \"elem_size\": "@);
    lemma_glued(p10, ",\n    \"elem_size\": "@);
    let p12 = p11.push(decimal(f.elem_size as nat));
    lemma_glued(p11, decimal(f.elem_size as nat));
    let p13 = p12.push(",\n    \"data_type\": \""@);
    lemma_glued(p12, ",\n    \"data_type\": \""@);
    let p14 = p13.push(element_name(f.elem_size));
    lemma_glued(p13, element_name(f.elem_size));
    let p15 = p14.push("\"\n  },\n"@);
    lemma_glued(p14, "\"\n  },\n"@);
    assert(glued(p1) == "{\n  \"index\": {\n    \"num_points\": "@) by {
        assert(Seq::<char>::empty() + "{\n  \"index\": {\n    \"num_points\": "@ =~= "{\n  \"index\": {\n    \"num_points\": "@);
    }
    assert(glued(p15) == index_text(f));
    assert("{\n  \"index\": {\n    \"num_points\": "@ == "{\n  \"index\": {\n    \"num_points\": "@.take(19) + "\"num_points\": "@) by {
        reveal_strlit("{\n  \"index\": {\n    \"num_points\": ");
        reveal_strlit("\"num_points\": ");
        assert("{\n  \"index\": {\n    \"num_points\": "@ =~= "{\n  \"index\": {\n    \"num_points\": "@.take(19) + "\"num_points\": "@);
    }
    assert(",\n    \"dims\": "@ == ",\n"@ + ",\n    \"dims\": "@.skip(2)) by {
        reveal_strlit(",\n    \"dims\": ");
        reveal_strlit(",\n");
        assert(",\n    \"dims\": "@ =~= ",\n"@ + ",\n    \"dims\": "@.skip(2));
    }
    lemma_field_is_said(
        p15,
        0,
        "{\n  \"index\": {\n    \"num_points\": "@.take(19),
        "\"num_points\": "@,
        ",\n"@,
        ",\n    \"dims\": "@.skip(2),
    );
    assert(",\n    \"dims\": "@ == ",\n    \"dims\": "@.take(6) + "\"dims\": "@) by {
        reveal_strlit(",\n    \"dims\": ");
        reveal_strlit("\"dims\": ");
        assert(",\n    \"dims\": "@ =~= ",\n    \"dims\": "@.take(6) + "\"dims\": "@);
    }
    assert(",\n    \"max_degree\": "@ == ",\n"@ + ",\n    \"max_degree\": "@.skip(2)) by {
        reveal_strlit(",\n    \"max_degree\": ");
        reveal_strlit(",\n");
        assert(",\n    \"max_degree\": "@ =~= ",\n"@ + ",\n    \"max_degree\": "@.skip(2));
    }
    lemma_field_is_said(
        p15,
        2,
        ",\n    \"dims\": "@.take(6),
        "\"dims\": "@,
        ",\n"@,
        ",\n    \"max_degree\": "@.skip(2),
    );
    assert(",\n    \"max_degree\": "@ == ",\n    \"max_degree\": "@.take(6) + "\"max_degree\": "@) by {
        reveal_strlit(",\n    \"max_degree\": ");
        reveal_strlit("\"max_degree\": ");
        assert(",\n    \"max_degree\": "@ =~= ",\n    \"max_degree\": "@.take(6) + "\"max_degree\": "@);
    }
    assert(",\n    \"node_len\": "@ == ",\n"@ + ",\n    \"node_len\": "@.skip(2)) by {
        reveal_strlit(",\n    \"node_len\": ");
        reveal_strlit(",\n");
        assert(",\n    \"node_len\": "@ =~= ",\n"@ + ",\n    \"node_len\": "@.skip(2));
    }
    lemma_field_is_said(
        p15,
        4,
        ",\n    \"max_degree\": "@.take(6),
        "\"max_degree\": "@,
        ",\n"@,
        ",\n    \"node_len\": "@.skip(2),
    );
    assert(",\n    \"node_len\": "@ == ",\n    \"node_len\": "@.take(6) + "\"node_len\": "@) by {
        reveal_strlit(",\n    \"node_len\": ");
        reveal_strlit("\"node_len\": ");
        assert(",\n    \"node_len\": "@ =~= ",\n    \"node_len\": "@.take(6) + "\"node_len\": "@);
    }
    assert(",\n    \"block_size\": "@ == ",\n"@ + ",\n    \"block_size\": "@.skip(2)) by {
        reveal_strlit(",\n    \"block_size\": ");
        reveal_strlit(",\n");
        assert(",\n    \"block_size\": "@ =~= ",\n"@ + ",\n    \"block_size\": "@.skip(2));
    }
    lemma_field_is_said(
        p15,
        6,
        ",\n    \"node_len\": "@.take(6),
        "\"node_len\": "@,
        ",\n"@,
        ",\n    \"block_size\": "@.skip(2),
    );
    assert(",\n    \"block_size\": "@ == ",\n    \"block_size\": "@.take(6) + "\"block_size\": "@) by {
        reveal_strlit(",\n    \"block_size\": ");
        reveal_strlit("\"block_size\": ");
        assert(",\n    \"block_size\": "@ =~= ",\n    \"block_size\": "@.take(6) + "\"block_size\": "@);
    }
    assert(",\n    \"elem_size\": "@ == ",\n"@ + ",\n    \"elem_size\": "@.skip(2)) by {
        reveal_strlit(",\n    \"elem_size\": ");
        reveal_strlit(",\n");
        assert(",\n    \"elem_size\": "@ =~= ",\n"@ + ",\n    \"elem_size\": "@.skip(2));
    }
    lemma_field_is_said(
        p15,
        8,
        ",\n    \"block_size\": "@.take(6),
        "\"block_size\": "@,
        ",\n"@,
        ",\n    \"elem_size\": "@.skip(2),
    );
    assert(",\n    \"elem_size\": "@ == ",\n    \"elem_size\": "@.take(6) + "\"elem_size\": "@) by {
        reveal_strlit(",\n    \"elem_size\": ");
        reveal_strlit("\"elem_size\": ");
        assert(",\n    \"elem_size\": "@ =~= ",\n    \"elem_size\": "@.take(6) + "\"elem_size\": "@);
    }
    assert(",\n    \"data_type\": \""@ == ",\n"@ + ",\n    \"data_type\": \""@.skip(2)) by {
        reveal_strlit(",\n    \"data_type\": \"");
        reveal_strlit(",\n");
        assert(",\n    \"data_type\": \""@ =~= ",\n"@ + ",\n    \"data_type\": \""@.skip(2));
    }
    lemma_field_is_said(
        p15,
        10,
        ",\n    \"elem_size\": "@.take(6),
        "\"elem_size\": "@,
        ",\n"@,
        ",\n    \"data_type\": \""@.skip(2),
    );
    assert(",\n    \"data_type\": \""@ == ",\n    \"data_type\": \""@.take(6) + "\"data_type\": \""@) by {
        reveal_strlit(",\n    \"data_type\": \"");
        reveal_strlit("\"data_type\": \"");
        assert(",\n    \"data_type\": \""@ =~= ",\n    \"data_type\": \""@.take(6) + "\"data_type\": \""@);
    }
    assert("\"\n  },\n"@ == "\""@ + "\"\n  },\n"@.skip(1)) by {
        reveal_strlit("\"\n  },\n");
        reveal_strlit("\"");
        assert("\"\n  },\n"@ =~= "\""@ + "\"\n  },\n"@.skip(1));
    }
    lemma_field_is_said(
        p15,
        12,
        ",\n    \"data_type\": \""@.take(6),
        "\"data_type\": \""@,
        "\""@,
        "\"\n  },\n"@.skip(1),
    );
}

/// Items follow one another with a comma and a line feed between them, and a line feed behind the
/// last.
pub proof fn law_items_are_separated(
    rows: Seq<MetricsRow>,
    results: Seq<BenchResult>,
    n: nat,
)
    ensures
        rows_text(rows, 0).len() == 0,
        results_text(results, 0).len() == 0,
        n + 1 < rows.len() ==> rows_text(rows, n + 1) == rows_text(rows, n) + row_text(
            rows[n as int],
        ) + ",\n"@,
        n + 1 == rows.len() ==> rows_text(rows, n + 1) == rows_text(rows, n) + row_text(
            rows[n as int],
        ) + "\n"@,
        n + 1 < results.len() ==> results_text(results, n + 1) == results_text(results, n)
            + result_text(results[n as int]) + ",\n"@,
        n + 1 == results.len() ==> results_text(results, n + 1) == results_text(results, n)
            + result_text(results[n as int]) + "\n"@,
{
}

/// The report holds the facts on the index, every benchmark with its name, and every row of each.
pub proof fn law_reports_hold_everything(
    facts: IndexFacts,
    results: Seq<BenchResult>,
    i: int,
    j: int,
)
    requires
        0 <= i < results.len(),
        0 <= j < results[i].rows@.len(),
    ensures
        says(report_text(facts, results), index_text(facts)),
        says(
            report_text(facts, results),
            "\"name\": \""@ + results[i].name@ + "\",\n      \"results\": [\n"@,
        ),
        says(report_text(facts, results), row_text(results[i].rows@[j])),
{
    let report = report_text(facts, results);
    let all = results_text(results, results.len());
    let one = result_text(results[i]);
    let head = "  \"benchmarks\": [\n"@;
    lemma_says(report, Seq::empty(), index_text(facts), head + all + "  ]\n}\n"@);
    lemma_says(report, index_text(facts) + head, all, "  ]\n}\n"@);
    lemma_result_within(results, results.len(), i);
    lemma_says_through(report, all, one);
    let name = results[i].name@;
    let open = "    {\n      \"name\": \""@;
    let close = "\",\n      \"results\": [\n"@;
    let rows = rows_text(results[i].rows@, results[i].rows@.len());
    reveal_strlit("    {\n      \"name\": \"");
    reveal_strlit("\"name\": \"");
    assert(open =~= open.take(12) + "\"name\": \""@);
    lemma_says(
        one,
        open.take(12),
        "\"name\": \""@ + name + close,
        rows + "      ]\n    }"@,
    );
    lemma_says_through(report, one, "\"name\": \""@ + name + close);
    lemma_says(one, open + name + close, rows, "      ]\n    }"@);
    lemma_row_within(results[i].rows@, results[i].rows@.len(), j);
    lemma_says_through(one, rows, row_text(results[i].rows@[j]));
    lemma_says_through(report, one, row_text(results[i].rows@[j]));
}

/// The text of benchmarks holds each of them.
proof fn lemma_result_within(results: Seq<BenchResult>, n: nat, i: int)
    requires
        0 <= i < n <= results.len(),
    ensures
        says(results_text(results, n), result_text(results[i])),
    decreases n,
{
    let before = results_text(results, (n - 1) as nat);
    let last = result_text(results[n - 1]);
    let end = separator(n == results.len());
    if i == n - 1 {
        lemma_says(results_text(results, n), before, last, end);
    } else {
        lemma_result_within(results, (n - 1) as nat, i);
        lemma_says(results_text(results, n), Seq::empty(), before, last + end);
        lemma_says_through(results_text(results, n), before, result_text(results[i]));
    }
}

/// The text of rows holds each of them.
proof fn lemma_row_within(rows: Seq<MetricsRow>, n: nat, j: int)
    requires
        0 <= j < n <= rows.len(),
    ensures
        says(rows_text(rows, n), row_text(rows[j])),
    decreases n,
{
    let before = rows_text(rows, (n - 1) as nat);
    let last = row_text(rows[n - 1]);
    let end = separator(n == rows.len());
    if j == n - 1 {
        lemma_says(rows_text(rows, n), before, last, end);
    } else {
        lemma_row_within(rows, (n - 1) as nat, j);
        lemma_says(rows_text(rows, n), Seq::empty(), before, last + end);
        lemma_says_through(rows_text(rows, n), before, row_text(rows[j]));
    }
}

/// The report is framed: the facts come first, then the benchmarks in a list; each benchmark has
/// its name, and its rows in a list.
pub proof fn law_reports_are_framed(
    facts: IndexFacts,
    results: Seq<BenchResult>,
    b: BenchResult,
    last: bool,
)
    ensures
        report_text(facts, results) == index_text(facts) + "  \"benchmarks\": [\n"@ + results_text(
            results,
            results.len(),
        ) + "  ]\n}\n"@,
        result_text(b) == "    {\n      \"name\": \""@ + b.name@ + "\",\n      \"results\": [\n"@
            + rows_text(b.rows@, b.rows@.len()) + "      ]\n    }"@,
        separator(true) == "\n"@,
        separator(false) == ",\n"@,
{
}

/// A row holds its keys and its measurements, and nothing else: its length is that of these.
pub proof fn law_rows_hold_nothing_else(r: MetricsRow)
    ensures
        row_text(r).len() == 236 + decimal(r.search_l as nat).len() + r.recall_at_10@.len() + r.qps@.len() + r.avg_us@.len() + r.p50_us@.len() + r.p95_us@.len() + r.p99_us@.len() + r.avg_dist_comps@.len() + r.avg_vec_reads@.len(),
{
    reveal_strlit("        {\n          \"search_L\": ");
    reveal_strlit(",\n          \"recall_at_10\": ");
    reveal_strlit(",\n          \"qps\": ");
    reveal_strlit(",\n          \"avg_us\": ");
    reveal_strlit(",\n          \"p50_us\": ");
    reveal_strlit(",\n          \"p95_us\": ");
    reveal_strlit(",\n          \"p99_us\": ");
    reveal_strlit(",\n          \"avg_dist_comps\": ");
    reveal_strlit(",\n          \"avg_vec_reads\": ");
    reveal_strlit("\n        }");
}

/// The part on the index holds its keys and the facts, and nothing else.
pub proof fn law_facts_hold_nothing_else(f: IndexFacts)
    ensures
        index_text(f).len() == 151 + decimal(f.num_points as nat).len() + decimal(f.dims as nat).len() + decimal(f.max_degree as nat).len() + decimal(f.node_len as nat).len() + decimal(f.block_size as nat).len() + decimal(f.elem_size as nat).len() + if f.elem_size == 1 {
            4int
        } else {
            7
        },
{
    reveal_strlit("{\n  \"index\": {\n    \"num_points\": ");
    reveal_strlit(",\n    \"dims\": ");
    reveal_strlit(",\n    \"max_degree\": ");
    reveal_strlit(",\n    \"node_len\": ");
    reveal_strlit(",\n    \"block_size\": ");
    reveal_strlit(",\n    \"elem_size\": ");
    reveal_strlit(",\n    \"data_type\": \"");
    reveal_strlit("\"\n  },\n");
    reveal_strlit("int8");
    reveal_strlit("float32");
}

} // verus!
