//! The placeholders of the statements: each text has as many as it has parameters.
//! What a literal holds is learnt from the literal itself, so the texts stand here
//! once more, counted from front to back.

use crate::query::{
    below_pattern, child_depth_of, children_anchor_query, children_query_of, leaderboard_query,
    no_query, scope_anchor_query, KnobsView, ParamView, QueryView, SQL_FILTER_SERVER,
    SQL_FILTER_SHARE, SQL_FILTER_F_SERVER, SQL_FILTER_F_SHARE, SQL_SCOPE_ANCHOR,
    SQL_CHILDREN_ANCHOR, SQL_LEADERBOARD_FILES, SQL_LEADERBOARD_BLOCKS, SQL_LEADERBOARD_SELECT,
    SQL_TIER_JOIN, SQL_NO_TIER, SQL_LEADERBOARD_TAIL, SQL_CHILDREN_FILES, SQL_CHILDREN_BLOCKS,
};
use vstd::prelude::*;

verus! {

/// The placeholders among the first `k` characters of a text.
pub open spec fn holes_before(s: Seq<char>, k: nat) -> nat
    decreases k,
{
    if k == 0 {
        0
    } else {
        holes_before(s, (k - 1) as nat) + if s[k - 1] == '?' {
            1nat
        } else {
            0nat
        }
    }
}

/// The placeholders of a text.
pub open spec fn holes(s: Seq<char>) -> nat {
    holes_before(s, s.len())
}

proof fn lemma_same_start(a: Seq<char>, b: Seq<char>, k: nat)
    requires
        k <= a.len(),
        k <= b.len(),
        forall|i: int| 0 <= i < k ==> a[i] == b[i],
    ensures
        holes_before(a, k) == holes_before(b, k),
    decreases k,
{
    if k > 0 {
        lemma_same_start(a, b, (k - 1) as nat);
    }
}

proof fn lemma_holes_after(a: Seq<char>, b: Seq<char>, k: nat)
    requires
        k <= b.len(),
    ensures
        holes_before(a + b, a.len() + k) == holes(a) + holes_before(b, k),
    decreases k,
{
    if k == 0 {
        lemma_same_start(a + b, a, a.len());
    } else {
        lemma_holes_after(a, b, (k - 1) as nat);
        assert((a + b)[a.len() + k - 1] == b[k - 1]);
    }
}

/// The placeholders of a text are those of its parts.
pub proof fn lemma_holes_concat(a: Seq<char>, b: Seq<char>)
    ensures
        holes(a + b) == holes(a) + holes(b),
{
    lemma_holes_after(a, b, b.len());
}

pub proof fn lemma_filter_server()
    ensures
        holes(SQL_FILTER_SERVER@) == 1,
{
    reveal_strlit(" AND server = ?");
    reveal_with_fuel(holes_before, 16);
    let s = SQL_FILTER_SERVER@;
    assert(holes_before(s, 15) == 1);
}

proof fn lemma_filter_share()
    ensures
        holes(SQL_FILTER_SHARE@) == 1,
{
    reveal_strlit(" AND share = ?");
    reveal_with_fuel(holes_before, 15);
    let s = SQL_FILTER_SHARE@;
    assert(holes_before(s, 14) == 1);
}

pub proof fn lemma_filter_f_server()
    ensures
        holes(SQL_FILTER_F_SERVER@) == 1,
{
    reveal_strlit(" AND f.server = ?");
    reveal_with_fuel(holes_before, 18);
    let s = SQL_FILTER_F_SERVER@;
    assert(holes_before(s, 17) == 1);
}

proof fn lemma_filter_f_share()
    ensures
        holes(SQL_FILTER_F_SHARE@) == 1,
{
    reveal_strlit(" AND f.share = ?");
    reveal_with_fuel(holes_before, 17);
    let s = SQL_FILTER_F_SHARE@;
    assert(holes_before(s, 16) == 1);
}

pub proof fn lemma_scope_anchor()
    ensures
        holes(SQL_SCOPE_ANCHOR@) == 0,
{
    reveal_strlit("SELECT MAX(dc.day_index)::BIGINT FROM day_counts dc JOIN files f USING (file_id) WHERE 1=1");
    reveal_with_fuel(holes_before, 51);
    let s = SQL_SCOPE_ANCHOR@;
    assert(holes_before(s, 50) == 0);
    assert(holes_before(s, 90) == 0);
}

pub proof fn lemma_children_anchor()
    ensures
        holes(SQL_CHILDREN_ANCHOR@) == 2,
{
    reveal_strlit("SELECT MAX(dc.day_index)::BIGINT FROM day_counts dc JOIN files f USING (file_id) WHERE (f.path = ? OR f.path LIKE ? ESCAPE '!')");
    reveal_with_fuel(holes_before, 51);
    let s = SQL_CHILDREN_ANCHOR@;
    assert(holes_before(s, 50) == 0);
    assert(holes_before(s, 100) == 1);
    assert(holes_before(s, 127) == 2);
}

pub proof fn lemma_leaderboard_files()
    ensures
        holes(SQL_LEADERBOARD_FILES@) == 1,
{
    reveal_strlit("WITH scoped_files AS (
  SELECT file_id, server, share,
         array_to_string(list_slice(string_split(path, '\\'), 1, ?), '\\') AS subtree,
         alloc_bytes
  FROM files
  WHERE 1=1");
    reveal_with_fuel(holes_before, 51);
    let s = SQL_LEADERBOARD_FILES@;
    assert(holes_before(s, 50) == 0);
    assert(holes_before(s, 100) == 0);
    assert(holes_before(s, 150) == 1);
    assert(holes_before(s, 186) == 1);
}

proof fn lemma_leaderboard_blocks()
    ensures
        holes(SQL_LEADERBOARD_BLOCKS@) == 3,
{
    reveal_strlit("
),
bytes_block AS (
  SELECT server, share, subtree,
         SUM(alloc_bytes)::BIGINT AS bytes,
         COUNT(*) FILTER (WHERE alloc_bytes IS NULL) AS unknown_bytes_files,
         COUNT(*) AS files
  FROM scoped_files
  GROUP BY server, share, subtree
),
heat_block AS (
  SELECT sf.server, sf.share, sf.subtree,
         SUM(? * dc.reads + ? * dc.writes)::DOUBLE AS demand,
         COUNT(DISTINCT dc.day_index) AS span
  FROM day_counts dc JOIN scoped_files sf ON sf.file_id = dc.file_id
  WHERE dc.day_index > ?
  GROUP BY sf.server, sf.share, sf.subtree
)
");
    reveal_with_fuel(holes_before, 51);
    let s = SQL_LEADERBOARD_BLOCKS@;
    assert(holes_before(s, 50) == 0);
    assert(holes_before(s, 100) == 0);
    assert(holes_before(s, 150) == 0);
    assert(holes_before(s, 200) == 0);
    assert(holes_before(s, 250) == 0);
    assert(holes_before(s, 300) == 0);
    assert(holes_before(s, 350) == 2);
    assert(holes_before(s, 400) == 2);
    assert(holes_before(s, 450) == 2);
    assert(holes_before(s, 500) == 2);
    assert(holes_before(s, 550) == 3);
    assert(holes_before(s, 564) == 3);
}

proof fn lemma_leaderboard_select()
    ensures
        holes(SQL_LEADERBOARD_SELECT@) == 0,
{
    reveal_strlit("SELECT b.server, b.share, b.subtree, b.bytes, b.unknown_bytes_files, b.files,
       h.demand, h.span, h.demand / NULLIF(b.bytes, 0) AS density,
");
    reveal_with_fuel(holes_before, 51);
    let s = SQL_LEADERBOARD_SELECT@;
    assert(holes_before(s, 50) == 0);
    assert(holes_before(s, 100) == 0);
    assert(holes_before(s, 145) == 0);
}

proof fn lemma_tier_join()
    ensures
        holes(SQL_TIER_JOIN@) == 1,
{
    reveal_strlit("       t.tier, t.migrated_on, t.note
FROM heat_block h JOIN bytes_block b USING (server, share, subtree)
LEFT JOIN LATERAL (
  SELECT tier, migrated_on, note
  FROM read_csv(?, header=true, columns={'server':'VARCHAR','share':'VARCHAR','path_prefix':'VARCHAR','tier':'VARCHAR','migrated_on':'VARCHAR','new_server':'VARCHAR','new_share':'VARCHAR','note':'VARCHAR'}) tl
  WHERE tl.server = b.server AND tl.share = b.share
    AND (b.subtree = tl.path_prefix OR starts_with(b.subtree, tl.path_prefix || '\\'))
  ORDER BY LENGTH(tl.path_prefix) DESC LIMIT 1
) t ON TRUE
");
    reveal_with_fuel(holes_before, 51);
    let s = SQL_TIER_JOIN@;
    assert(holes_before(s, 50) == 0);
    assert(holes_before(s, 100) == 0);
    assert(holes_before(s, 150) == 0);
    assert(holes_before(s, 200) == 1);
    assert(holes_before(s, 250) == 1);
    assert(holes_before(s, 300) == 1);
    assert(holes_before(s, 350) == 1);
    assert(holes_before(s, 400) == 1);
    assert(holes_before(s, 450) == 1);
    assert(holes_before(s, 500) == 1);
    assert(holes_before(s, 550) == 1);
    assert(holes_before(s, 565) == 1);
}

proof fn lemma_no_tier()
    ensures
        holes(SQL_NO_TIER@) == 0,
{
    reveal_strlit("       NULL::VARCHAR AS tier, NULL::VARCHAR AS migrated_on, NULL::VARCHAR AS note
FROM heat_block h JOIN bytes_block b USING (server, share, subtree)
");
    reveal_with_fuel(holes_before, 51);
    let s = SQL_NO_TIER@;
    assert(holes_before(s, 50) == 0);
    assert(holes_before(s, 100) == 0);
    assert(holes_before(s, 150) == 0);
}

proof fn lemma_leaderboard_tail()
    ensures
        holes(SQL_LEADERBOARD_TAIL@) == 2,
{
    reveal_strlit("WHERE h.span >= ?
ORDER BY density DESC NULLS LAST
LIMIT ?");
    reveal_with_fuel(holes_before, 51);
    let s = SQL_LEADERBOARD_TAIL@;
    assert(holes_before(s, 50) == 1);
    assert(holes_before(s, 58) == 2);
}

pub proof fn lemma_children_files()
    ensures
        holes(SQL_CHILDREN_FILES@) == 3,
{
    reveal_strlit("WITH scoped_files AS (
  SELECT file_id,
         array_to_string(list_slice(string_split(path, '\\'), 1, ?), '\\') AS subtree,
         alloc_bytes
  FROM files
  WHERE (path = ? OR path LIKE ? ESCAPE '!')");
    reveal_with_fuel(holes_before, 51);
    let s = SQL_CHILDREN_FILES@;
    assert(holes_before(s, 50) == 0);
    assert(holes_before(s, 100) == 0);
    assert(holes_before(s, 150) == 1);
    assert(holes_before(s, 200) == 3);
    assert(holes_before(s, 204) == 3);
}

proof fn lemma_children_blocks()
    ensures
        holes(SQL_CHILDREN_BLOCKS@) == 3,
{
    reveal_strlit("
),
bytes_block AS (
  SELECT subtree,
         SUM(alloc_bytes)::BIGINT AS bytes,
         COUNT(*) FILTER (WHERE alloc_bytes IS NULL) AS unknown_bytes_files,
         COUNT(*) AS files
  FROM scoped_files
  GROUP BY subtree
),
heat_block AS (
  SELECT sf.subtree,
         SUM(? * dc.reads + ? * dc.writes)::DOUBLE AS demand,
         COUNT(DISTINCT dc.day_index) AS span
  FROM day_counts dc JOIN scoped_files sf ON sf.file_id = dc.file_id
  WHERE dc.day_index > ?
  GROUP BY sf.subtree
)
SELECT b.subtree, b.bytes, COALESCE(h.demand, 0.0) AS demand,
        COALESCE(h.demand, 0.0) / NULLIF(b.bytes, 0) AS density,
        COALESCE(h.span, 0) AS span, b.unknown_bytes_files
  FROM bytes_block b LEFT JOIN heat_block h USING (subtree)
  ORDER BY demand DESC");
    reveal_with_fuel(holes_before, 51);
    let s = SQL_CHILDREN_BLOCKS@;
    assert(holes_before(s, 50) == 0);
    assert(holes_before(s, 100) == 0);
    assert(holes_before(s, 150) == 0);
    assert(holes_before(s, 200) == 0);
    assert(holes_before(s, 250) == 0);
    assert(holes_before(s, 300) == 2);
    assert(holes_before(s, 350) == 2);
    assert(holes_before(s, 400) == 2);
    assert(holes_before(s, 450) == 2);
    assert(holes_before(s, 500) == 3);
    assert(holes_before(s, 550) == 3);
    assert(holes_before(s, 600) == 3);
    assert(holes_before(s, 650) == 3);
    assert(holes_before(s, 700) == 3);
    assert(holes_before(s, 750) == 3);
    assert(holes_before(s, 760) == 3);
}

proof fn lemma_text(q: QueryView, sql: Seq<char>)
    ensures
        holes(q.text(sql).sql) == holes(q.sql) + holes(sql),
        q.text(sql).params == q.params,
{
    lemma_holes_concat(q.sql, sql);
}

proof fn lemma_filter(q: QueryView, sql: Seq<char>, value: Option<Seq<char>>)
    requires
        holes(sql) == 1,
        holes(q.sql) == q.params.len(),
    ensures
        holes(q.filter(sql, value).sql) == q.filter(sql, value).params.len(),
{
    lemma_text(q, sql);
}

/// Every statement has as many placeholders as parameters, whatever the knobs, so
/// that no filter, tier log or subtree unbinds one.
pub proof fn law_placeholders_match_parameters(
    k: KnobsView,
    threshold: i64,
    tier_log: Option<Seq<char>>,
    parent: Seq<char>,
)
    ensures
        ({
            let q = leaderboard_query(k, threshold, tier_log);
            holes(q.sql) == q.params.len()
        }),
        ({
            let q = scope_anchor_query(k);
            holes(q.sql) == q.params.len()
        }),
        ({
            let q = children_query_of(k, parent, threshold);
            holes(q.sql) == q.params.len()
        }),
        ({
            let q = children_anchor_query(k, parent);
            holes(q.sql) == q.params.len()
        }),
{
    lemma_filter_server();
    lemma_filter_share();
    lemma_filter_f_server();
    lemma_filter_f_share();
    lemma_leaderboard(k, threshold, tier_log);
    lemma_children(k, threshold, parent);
    lemma_scope_anchor();
    lemma_children_anchor();
    let a = no_query();
    lemma_text(a, SQL_SCOPE_ANCHOR@);
    let b = a.text(SQL_SCOPE_ANCHOR@);
    lemma_filter(b, SQL_FILTER_F_SERVER@, k.server);
    lemma_filter(b.filter(SQL_FILTER_F_SERVER@, k.server), SQL_FILTER_F_SHARE@, k.share);
    lemma_text(a, SQL_CHILDREN_ANCHOR@);
    let c = a.text(SQL_CHILDREN_ANCHOR@).bind(ParamView::Text(parent)).bind(
        ParamView::Text(below_pattern(parent)),
    );
    lemma_filter(c, SQL_FILTER_F_SERVER@, k.server);
    lemma_filter(c.filter(SQL_FILTER_F_SERVER@, k.server), SQL_FILTER_F_SHARE@, k.share);
}

proof fn lemma_leaderboard(k: KnobsView, threshold: i64, tier_log: Option<Seq<char>>)
    ensures
        holes(leaderboard_query(k, threshold, tier_log).sql) == leaderboard_query(
            k,
            threshold,
            tier_log,
        ).params.len(),
{
    lemma_filter_server();
    lemma_filter_share();
    lemma_leaderboard_files();
    lemma_leaderboard_blocks();
    lemma_leaderboard_select();
    lemma_tier_join();
    lemma_no_tier();
    lemma_leaderboard_tail();
    let a = no_query();
    lemma_text(a, SQL_LEADERBOARD_FILES@);
    let b = a.text(SQL_LEADERBOARD_FILES@).bind(ParamView::Integer(k.depth));
    lemma_filter(b, SQL_FILTER_SERVER@, k.server);
    let c = b.filter(SQL_FILTER_SERVER@, k.server);
    lemma_filter(c, SQL_FILTER_SHARE@, k.share);
    let d = c.filter(SQL_FILTER_SHARE@, k.share);
    lemma_text(d, SQL_LEADERBOARD_BLOCKS@);
    let e = d.text(SQL_LEADERBOARD_BLOCKS@).bind(ParamView::ReadWeight).bind(
        ParamView::WriteWeight,
    ).bind(ParamView::Integer(threshold));
    lemma_text(e, SQL_LEADERBOARD_SELECT@);
    let f = e.text(SQL_LEADERBOARD_SELECT@);
    lemma_text(f, SQL_TIER_JOIN@);
    lemma_text(f, SQL_NO_TIER@);
    lemma_text(f.tier(tier_log), SQL_LEADERBOARD_TAIL@);
}

proof fn lemma_children(k: KnobsView, threshold: i64, parent: Seq<char>)
    ensures
        holes(children_query_of(k, parent, threshold).sql) == children_query_of(
            k,
            parent,
            threshold,
        ).params.len(),
{
    lemma_filter_server();
    lemma_filter_share();
    lemma_children_files();
    lemma_children_blocks();
    let a = no_query();
    lemma_text(a, SQL_CHILDREN_FILES@);
    let b = a.text(SQL_CHILDREN_FILES@).bind(
        ParamView::Integer(child_depth_of(parent) as i64),
    ).bind(ParamView::Text(parent)).bind(ParamView::Text(below_pattern(parent)));
    lemma_filter(b, SQL_FILTER_SERVER@, k.server);
    let c = b.filter(SQL_FILTER_SERVER@, k.server);
    lemma_filter(c, SQL_FILTER_SHARE@, k.share);
    let d = c.filter(SQL_FILTER_SHARE@, k.share);
    lemma_text(d, SQL_CHILDREN_BLOCKS@);
}

} // verus!
