//! What the statements ask for.

use crate::clock::date_time_text;
use crate::json::json_quoted;
use crate::placeholders::{
    holes, lemma_children_anchor, lemma_children_files, lemma_filter_f_server, lemma_filter_server,
    lemma_holes_concat, lemma_leaderboard_files, lemma_scope_anchor,
};
use crate::query::{
    below_pattern, child_depth_of, children_anchor_query, children_query_of, health_text, known_sum,
    leaderboard_query, like_escaped, scope_anchor_query, server_health_text, servers_health_text,
    KnobsView, ParamView, ServerDump,
};
use crate::query::{
    SQL_CHILDREN_ANCHOR, SQL_CHILDREN_BLOCKS, SQL_CHILDREN_FILES, SQL_HEALTH,
    SQL_LEADERBOARD_BLOCKS, SQL_LEADERBOARD_FILES, SQL_LEADERBOARD_SELECT, SQL_LEADERBOARD_TAIL,
    SQL_NO_TIER, SQL_SCOPE_ANCHOR, SQL_TIER_JOIN,
};
use crate::split::{lemma_split_piece, lemma_split_whole};
use crate::text::dec_int;
use vstd::prelude::*;

verus! {

// ---- the leaderboard ------------------------------------------------------

/// The leaderboard's parameters, place by place: the depth, the server if one is given,
/// the share if one is given, whether or not a server is, the two weights, the
/// threshold, the tier log if there is one, the least span and the limit.
pub proof fn law_leaderboard_parameters(k: KnobsView, threshold: i64, log: Option<Seq<char>>)
    ensures
        ({
            let p = leaderboard_query(k, threshold, log).params;
            let share_at = if k.server is Some { 2int } else { 1 };
            let rest = if k.share is Some { share_at + 1 } else { share_at };
            let end = if log is Some { rest + 4 } else { rest + 3 };
            &&& p.len() == end + 2
            &&& p[0] == ParamView::Integer(k.depth)
            &&& k.server is Some ==> p[1] == ParamView::Text(k.server->0)
            &&& k.share is Some ==> p[share_at] == ParamView::Text(k.share->0)
            &&& p[rest] == ParamView::ReadWeight
            &&& p[rest + 1] == ParamView::WriteWeight
            &&& p[rest + 2] == ParamView::Integer(threshold)
            &&& log is Some ==> p[rest + 3] == ParamView::Text(log->0)
            &&& p[end] == ParamView::Integer(k.min_span)
            &&& p[end + 1] == ParamView::Integer(k.limit)
        }),
{
}

/// The leaderboard's text: the scoped files with a filter for each of server and share
/// that is given, then the sums, the columns, the tier and the ranking.
pub proof fn law_leaderboard_text(k: KnobsView, threshold: i64, log: Option<Seq<char>>)
    ensures
        leaderboard_query(k, threshold, log).sql == SQL_LEADERBOARD_FILES@ + (
        if k.server is Some {
            " AND server = ?"@
        } else {
            Seq::empty()
        }) + (if k.share is Some {
            " AND share = ?"@
        } else {
            Seq::empty()
        }) + SQL_LEADERBOARD_BLOCKS@ + SQL_LEADERBOARD_SELECT@ + (if log is Some {
            SQL_TIER_JOIN@
        } else {
            SQL_NO_TIER@
        }) + SQL_LEADERBOARD_TAIL@,
{
    let a = SQL_LEADERBOARD_FILES@;
    let b = a + " AND server = ?"@;
    assert(Seq::<char>::empty() + a =~= a);
    assert(a + Seq::<char>::empty() =~= a);
    assert(b + Seq::<char>::empty() =~= b);
}

/// Each given filter's placeholder is the one that its value is bound to: before the
/// share's filter there are as many placeholders as parameters before the share, and
/// likewise for the server. Both stand right behind the conditions of the scoped files.
pub proof fn law_leaderboard_filters_are_bound(k: KnobsView, threshold: i64, log: Option<Seq<char>>)
    ensures
        ({
            let q = leaderboard_query(k, threshold, log);
            let files = SQL_LEADERBOARD_FILES@;
            let head = if k.server is Some { files + " AND server = ?"@ } else { files };
            &&& k.server is Some ==> {
                &&& q.sql.take((files.len() + " AND server = ?"@.len()) as int) == files
                    + " AND server = ?"@
                &&& holes(files) == 1
                &&& q.params[1] == ParamView::Text(k.server->0)
            }
            &&& k.share is Some ==> {
                &&& q.sql.take((head.len() + " AND share = ?"@.len()) as int) == head
                    + " AND share = ?"@
                &&& q.params[holes(head) as int] == ParamView::Text(k.share->0)
                &&& holes(head) == if k.server is Some { 2int } else { 1 }
            }
        }),
{
    law_leaderboard_text(k, threshold, log);
    law_leaderboard_parameters(k, threshold, log);
    lemma_leaderboard_files();
    lemma_filter_server();
    let files = SQL_LEADERBOARD_FILES@;
    lemma_holes_concat(files, " AND server = ?"@);
    let q = leaderboard_query(k, threshold, log);
    let head = if k.server is Some { files + " AND server = ?"@ } else { files };
    assert(files + Seq::<char>::empty() =~= files);
    if k.server is Some {
        assert(q.sql.take((files.len() + " AND server = ?"@.len()) as int) =~= files
            + " AND server = ?"@);
    }
    if k.share is Some {
        assert(q.sql.take((head.len() + " AND share = ?"@.len()) as int) =~= head
            + " AND share = ?"@);
    }
}

/// Nothing that is asked for is lost: leaderboards with different knobs, thresholds or
/// tier logs have different statements.
pub proof fn law_leaderboards_differ(
    a: KnobsView,
    b: KnobsView,
    ta: i64,
    tb: i64,
    la: Option<Seq<char>>,
    lb: Option<Seq<char>>,
)
    requires
        a.server is Some == b.server is Some,
        a.share is Some == b.share is Some,
        la is Some == lb is Some,
        leaderboard_query(a, ta, la).params == leaderboard_query(b, tb, lb).params,
    ensures
        a.server == b.server,
        a.share == b.share,
        a.depth == b.depth,
        a.min_span == b.min_span,
        a.limit == b.limit,
        ta == tb,
        la == lb,
{
    law_leaderboard_parameters(a, ta, la);
    law_leaderboard_parameters(b, tb, lb);
    assert(a.server is Some ==> ParamView::Text(a.server->0) == ParamView::Text(b.server->0));
    assert(a.share is Some ==> ParamView::Text(a.share->0) == ParamView::Text(b.share->0));
    assert(la is Some ==> ParamView::Text(la->0) == ParamView::Text(lb->0));
}

/// A filter that is given and one that is not give different numbers of parameters: the
/// filters, and nothing else but the tier log, decide how many there are.
pub proof fn law_leaderboard_parameter_count(k: KnobsView, threshold: i64, log: Option<Seq<char>>)
    ensures
        leaderboard_query(k, threshold, log).params.len() == 6 + (if k.server is Some {
            1int
        } else {
            0
        }) + (if k.share is Some {
            1int
        } else {
            0
        }) + (if log is Some {
            1int
        } else {
            0
        }),
{
}

/// The statement for the anchor has the same scope: the latest day of the files that
/// the given filters leave.
pub proof fn law_scope_anchor_statement(k: KnobsView)
    ensures
        ({
            let q = scope_anchor_query(k);
            let share_at = if k.server is Some { 1int } else { 0 };
            &&& q.sql == SQL_SCOPE_ANCHOR@ + (if k.server is Some {
                " AND f.server = ?"@
            } else {
                Seq::empty()
            }) + (if k.share is Some {
                " AND f.share = ?"@
            } else {
                Seq::empty()
            })
            &&& q.params.len() == share_at + if k.share is Some { 1int } else { 0 }
            &&& k.server is Some ==> q.params[0] == ParamView::Text(k.server->0)
            &&& k.share is Some ==> q.params[share_at] == ParamView::Text(k.share->0)
            &&& holes(SQL_SCOPE_ANCHOR@) == 0
        }),
{
    lemma_scope_anchor();
    let a = SQL_SCOPE_ANCHOR@;
    let b = a + " AND f.server = ?"@;
    assert(Seq::<char>::empty() + a =~= a);
    assert(a + Seq::<char>::empty() =~= a);
    assert(b + Seq::<char>::empty() =~= b);
    assert((a + " AND f.share = ?"@) + Seq::<char>::empty() =~= a + " AND f.share = ?"@);
}

// ---- children -------------------------------------------------------------

/// The parameters of the statement for a subtree's children, place by place.
pub proof fn law_children_parameters(k: KnobsView, parent: Seq<char>, threshold: i64)
    ensures
        ({
            let p = children_query_of(k, parent, threshold).params;
            let share_at = if k.server is Some { 4int } else { 3 };
            let rest = if k.share is Some { share_at + 1 } else { share_at };
            &&& p.len() == rest + 3
            &&& p[0] == ParamView::Integer(child_depth_of(parent) as i64)
            &&& p[1] == ParamView::Text(parent)
            &&& p[2] == ParamView::Text(like_escaped(parent) + "\\%"@)
            &&& k.server is Some ==> p[3] == ParamView::Text(k.server->0)
            &&& k.share is Some ==> p[share_at] == ParamView::Text(k.share->0)
            &&& p[rest] == ParamView::ReadWeight
            &&& p[rest + 1] == ParamView::WriteWeight
            &&& p[rest + 2] == ParamView::Integer(threshold)
        }),
{
}

/// The text of the statement for a subtree's children.
pub proof fn law_children_text(k: KnobsView, parent: Seq<char>, threshold: i64)
    ensures
        children_query_of(k, parent, threshold).sql == SQL_CHILDREN_FILES@ + (
        if k.server is Some {
            " AND server = ?"@
        } else {
            Seq::empty()
        }) + (if k.share is Some {
            " AND share = ?"@
        } else {
            Seq::empty()
        }) + SQL_CHILDREN_BLOCKS@,
        holes(SQL_CHILDREN_FILES@) == 3,
        holes(SQL_CHILDREN_FILES@ + " AND server = ?"@) == 4,
{
    lemma_children_files();
    lemma_filter_server();
    let a = SQL_CHILDREN_FILES@;
    let b = a + " AND server = ?"@;
    lemma_holes_concat(a, " AND server = ?"@);
    assert(Seq::<char>::empty() + a =~= a);
    assert(a + Seq::<char>::empty() =~= a);
    assert(b + Seq::<char>::empty() =~= b);
}

/// The statement for the anchor of a subtree: the latest day of the subtree and of what
/// lies below it, as far as the given filters leave it.
pub proof fn law_children_anchor_statement(k: KnobsView, parent: Seq<char>)
    ensures
        ({
            let q = children_anchor_query(k, parent);
            let share_at = if k.server is Some { 3int } else { 2 };
            &&& q.sql == SQL_CHILDREN_ANCHOR@ + (if k.server is Some {
                " AND f.server = ?"@
            } else {
                Seq::empty()
            }) + (if k.share is Some {
                " AND f.share = ?"@
            } else {
                Seq::empty()
            })
            &&& q.params.len() == share_at + if k.share is Some { 1int } else { 0 }
            &&& q.params[0] == ParamView::Text(parent)
            &&& q.params[1] == ParamView::Text(like_escaped(parent) + "\\%"@)
            &&& k.server is Some ==> q.params[2] == ParamView::Text(k.server->0)
            &&& k.share is Some ==> q.params[share_at] == ParamView::Text(k.share->0)
            &&& holes(SQL_CHILDREN_ANCHOR@) == 2
            &&& holes(SQL_CHILDREN_ANCHOR@ + " AND f.server = ?"@) == 3
        }),
{
    lemma_children_anchor();
    lemma_filter_f_server();
    let a = SQL_CHILDREN_ANCHOR@;
    let b = a + " AND f.server = ?"@;
    lemma_holes_concat(a, " AND f.server = ?"@);
    assert(Seq::<char>::empty() + a =~= a);
    assert(a + Seq::<char>::empty() =~= a);
    assert(b + Seq::<char>::empty() =~= b);
    assert((a + " AND f.share = ?"@) + Seq::<char>::empty() =~= a + " AND f.share = ?"@);
}

/// The children of a subtree lie one segment deeper than it: two segments for a name
/// without a separator, and one more for each separator.
pub proof fn law_child_depth(name: Seq<char>, parent: Seq<char>)
    requires
        !name.contains('\\'),
    ensures
        child_depth_of(name) == 2,
        child_depth_of(name + "\\"@ + parent) == child_depth_of(parent) + 1,
{
    reveal_strlit("\\");
    lemma_split_whole(name, '\\');
    lemma_split_piece(name, '\\', parent);
    assert(name + "\\"@ + parent =~= name.push('\\') + parent);
}

/// A pattern escapes `!`, `%` and `_` by a `!` before them and leaves the rest.
pub proof fn law_like_escapes(s: Seq<char>, c: char)
    ensures
        like_escaped(Seq::empty()).len() == 0,
        c == '!' || c == '%' || c == '_' ==> like_escaped(s.push(c)) == like_escaped(s).push(
            '!',
        ).push(c),
        c != '!' && c != '%' && c != '_' ==> like_escaped(s.push(c)) == like_escaped(s).push(c),
        below_pattern(s) == like_escaped(s) + "\\%"@,
{
    assert(s.push(c).drop_last() =~= s);
}

// ---- bytes ----------------------------------------------------------------

/// The bytes of children add up, the unknown ones as none.
pub proof fn law_known_bytes_add_up(bytes: Seq<Option<i64>>, b: i64)
    ensures
        known_sum(Seq::empty()) == 0,
        known_sum(bytes.push(Some(b))) == known_sum(bytes) + b,
        known_sum(bytes.push(None)) == known_sum(bytes),
{
    assert(bytes.push(Some(b)).drop_last() =~= bytes);
    assert(bytes.push(None).drop_last() =~= bytes);
}

// ---- health ---------------------------------------------------------------

/// The report on a server says which dump was its last, when it was made, and how many
/// seconds before now that was.
pub proof fn law_server_health(d: ServerDump, now: int)
    ensures
        server_health_text(d, now) == "{\"server\":"@ + json_quoted(d.server@)
            + ",\"last_dump_at\":"@ + json_quoted(date_time_text(d.last_epoch as int) + "Z"@)
            + ",\"last_dump_seq\":"@ + dec_int(d.last_dump_seq as int) + ",\"seconds_stale\":"@
            + dec_int(now - d.last_epoch) + "}"@,
{
}

/// The report lists the servers in the order that they come in.
pub proof fn law_health(dumps: Seq<ServerDump>, d: ServerDump, now: int)
    ensures
        health_text(dumps, now) == "{\"now\":"@ + json_quoted(date_time_text(now) + "Z"@)
            + ",\"servers\":["@ + servers_health_text(dumps, now) + "]}"@,
        servers_health_text(Seq::empty(), now).len() == 0,
        servers_health_text(seq![d], now) == server_health_text(d, now),
        dumps.len() > 0 ==> servers_health_text(dumps.push(d), now) == servers_health_text(
            dumps,
            now,
        ) + ","@ + server_health_text(d, now),
{
    assert(dumps.push(d).drop_last() =~= dumps);
    assert(seq![d][0] == d);
}

// ---- texts ----------------------------------------------------------------

/// The fixed parts of the leaderboard's statement, word for word: a subtree is the
/// first segments of a path, its bytes are those of all its files, its demand and its
/// span those of the days above the threshold, and the subtrees are ranked by density.
pub proof fn law_leaderboard_parts()
    ensures
        SQL_LEADERBOARD_FILES@ == "WITH scoped_files AS (
  SELECT file_id, server, share,
         array_to_string(list_slice(string_split(path, '\\'), 1, ?), '\\') AS subtree,
         alloc_bytes
  FROM files
  WHERE 1=1"@,
        SQL_LEADERBOARD_BLOCKS@ == "
),
bytes_block AS (
  SELECT server, share, subtree,
         SUM(alloc_bytes)::BIGINT AS bytes,
         COUNT(*) FILTER (WHERE alloc_bytes IS NULL) AS unknown_bytes_files,
         COUNT(*) AS files
  FROM scoped_files
  GROUP BY server, share, subtree
),
heat_block AS (
  SELECT sf.server, sf.share, sf.subtree,
         SUM(? * dc.reads + ? * dc.writes)::DOUBLE AS demand,
         COUNT(DISTINCT dc.day_index) AS span
  FROM day_counts dc JOIN scoped_files sf ON sf.file_id = dc.file_id
  WHERE dc.day_index > ?
  GROUP BY sf.server, sf.share, sf.subtree
)
"@,
        SQL_LEADERBOARD_SELECT@ == "SELECT b.server, b.share, b.subtree, b.bytes, b.unknown_bytes_files, b.files,
       h.demand, h.span, h.demand / NULLIF(b.bytes, 0) AS density,
"@,
        SQL_TIER_JOIN@ == "       t.tier, t.migrated_on, t.note
FROM heat_block h JOIN bytes_block b USING (server, share, subtree)
LEFT JOIN LATERAL (
  SELECT tier, migrated_on, note
  FROM read_csv(?, header=true, columns={'server':'VARCHAR','share':'VARCHAR','path_prefix':'VARCHAR','tier':'VARCHAR','migrated_on':'VARCHAR','new_server':'VARCHAR','new_share':'VARCHAR','note':'VARCHAR'}) tl
  WHERE tl.server = b.server AND tl.share = b.share
    AND (b.subtree = tl.path_prefix OR starts_with(b.subtree, tl.path_prefix || '\\'))
  ORDER BY LENGTH(tl.path_prefix) DESC LIMIT 1
) t ON TRUE
"@,
        SQL_NO_TIER@ == "       NULL::VARCHAR AS tier, NULL::VARCHAR AS migrated_on, NULL::VARCHAR AS note
FROM heat_block h JOIN bytes_block b USING (server, share, subtree)
"@,
        SQL_LEADERBOARD_TAIL@ == "WHERE h.span >= ?
ORDER BY density DESC NULLS LAST
LIMIT ?"@,
{
}

/// The fixed parts of the other statements, word for word.
pub proof fn law_other_parts()
    ensures
        SQL_SCOPE_ANCHOR@
            == "SELECT MAX(dc.day_index)::BIGINT FROM day_counts dc JOIN files f USING (file_id) WHERE 1=1"@,
        SQL_CHILDREN_ANCHOR@
            == "SELECT MAX(dc.day_index)::BIGINT FROM day_counts dc JOIN files f USING (file_id) WHERE (f.path = ? OR f.path LIKE ? ESCAPE '!')"@,
        SQL_CHILDREN_FILES@ == "WITH scoped_files AS (
  SELECT file_id,
         array_to_string(list_slice(string_split(path, '\\'), 1, ?), '\\') AS subtree,
         alloc_bytes
  FROM files
  WHERE (path = ? OR path LIKE ? ESCAPE '!')"@,
        SQL_CHILDREN_BLOCKS@ == "
),
bytes_block AS (
  SELECT subtree,
         SUM(alloc_bytes)::BIGINT AS bytes,
         COUNT(*) FILTER (WHERE alloc_bytes IS NULL) AS unknown_bytes_files,
         COUNT(*) AS files
  FROM scoped_files
  GROUP BY subtree
),
heat_block AS (
  SELECT sf.subtree,
         SUM(? * dc.reads + ? * dc.writes)::DOUBLE AS demand,
         COUNT(DISTINCT dc.day_index) AS span
  FROM day_counts dc JOIN scoped_files sf ON sf.file_id = dc.file_id
  WHERE dc.day_index > ?
  GROUP BY sf.subtree
)
SELECT b.subtree, b.bytes, COALESCE(h.demand, 0.0) AS demand,
        COALESCE(h.demand, 0.0) / NULLIF(b.bytes, 0) AS density,
        COALESCE(h.span, 0) AS span, b.unknown_bytes_files
  FROM bytes_block b LEFT JOIN heat_block h USING (subtree)
  ORDER BY demand DESC"@,
        SQL_HEALTH@
            == "SELECT server, arg_max(last_dump_seq, last_dump_at)::BIGINT AS last_dump_seq, epoch(MAX(last_dump_at))::BIGINT AS last_epoch FROM runs GROUP BY server ORDER BY server"@,
{
}

} // verus!
