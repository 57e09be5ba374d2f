//! Paths relative to a share's root. A path is its components: repeated separators
//! and `.` pieces between them count for nothing, a drive's letter has no case, a
//! server with its share is one component, and both slashes separate.

use crate::split::{first_at, lemma_first_at, lemma_first_at_is};
use crate::text::{ascii_lower, chars_of, lowercase, text_of};
use vstd::prelude::*;

verus! {

/// A path with backslashes for separators.
pub open spec fn backslashed(s: Seq<char>) -> Seq<char> {
    s.map_values(
        |c: char|
            if c == '/' {
                '\\'
            } else {
                c
            },
    )
}

/// A path without separators at its front.
pub open spec fn without_head(s: Seq<char>) -> Seq<char>
    decreases s.len(),
{
    if s.len() > 0 && s[0] == '\\' {
        without_head(s.skip(1))
    } else {
        s
    }
}

/// A path begins with a `.` piece.
pub open spec fn at_dot(s: Seq<char>) -> bool {
    s.len() > 0 && s[0] == '.' && (s.len() == 1 || s[1] == '\\')
}

/// A path from its first component on: without separators and `.` pieces at its front.
pub open spec fn from_component(s: Seq<char>) -> Seq<char>
    decreases s.len(),
{
    if (s.len() > 0 && s[0] == '\\') || at_dot(s) {
        from_component(s.skip(1))
    } else {
        s
    }
}

/// A path up to its last component: without separators and `.` pieces at its end. Its
/// first `keep` characters stay.
pub open spec fn to_component(s: Seq<char>, keep: int) -> Seq<char>
    decreases s.len(),
{
    if s.len() > keep && s.len() > 0 && (s.last() == '\\' || (s.len() > 1 && s.last() == '.'
        && s[s.len() - 2] == '\\')) {
        to_component(s.drop_last(), keep)
    } else {
        s
    }
}

/// The length of a path's drive: a letter and a colon.
pub open spec fn drive_len(s: Seq<char>) -> int {
    if s.len() >= 2 && 'a' <= ascii_lower(s[0]) <= 'z' && s[1] == ':' {
        2
    } else {
        0
    }
}

/// The length of a path's server and share, two separators before them and one between:
/// neither is empty.
pub open spec fn unc_len(s: Seq<char>) -> int {
    let a = first_at(s.skip(2), '\\');
    let b = first_at(s.skip(3 + a), '\\');
    if s.len() > 2 && s[0] == '\\' && s[1] == '\\' && a > 0 && 3 + a <= s.len() && b > 0 {
        3 + a + b
    } else {
        0
    }
}

/// The length of what stands before a path's own root: a server with its share, or a
/// drive.
pub open spec fn prefix_len(s: Seq<char>) -> int {
    if unc_len(s) > 0 {
        unc_len(s)
    } else {
        drive_len(s)
    }
}

/// Two paths have the same server and share, the same drive, or neither both.
pub open spec fn same_prefix(a: Seq<char>, b: Seq<char>) -> bool {
    &&& unc_len(a) == unc_len(b)
    &&& drive_len(a) == drive_len(b)
    &&& a.take(unc_len(a)) == b.take(unc_len(b))
    &&& drive_len(a) > 0 ==> ascii_lower(a[0]) == ascii_lower(b[0])
}

/// A path, its prefix left out, begins with a separator.
pub open spec fn is_rooted(s: Seq<char>) -> bool {
    s.len() > 0 && s[0] == '\\'
}

/// What is left of a path when the components of `root` are taken from its front;
/// nothing where they are not its first.
pub open spec fn below(full: Seq<char>, root: Seq<char>) -> Option<Seq<char>>
    decreases root.len(),
{
    let f = from_component(full);
    let r = from_component(root);
    let n = first_at(r, '\\');
    let m = first_at(f, '\\');
    proof {
        lemma_from_component(root);
        lemma_first_at(r, '\\');
    }
    if r.len() == 0 {
        Some(f)
    } else if f.take(m) != r.take(n) {
        None
    } else {
        below(f.skip(m), r.skip(n))
    }
}

/// What is left of a path below a root; nothing where it does not lie there. The first
/// piece of a path without a root of its own counts even where it is a `.`. A share is a
/// root of its own.
pub open spec fn below_root(full: Seq<char>, root: Seq<char>) -> Option<Seq<char>> {
    let d = prefix_len(root);
    let f = full.skip(d);
    let r = root.skip(d);
    let n = first_at(r, '\\');
    let m = first_at(f, '\\');
    if !same_prefix(full, root) {
        None
    } else if unc_len(root) > 0 {
        below(f, r)
    } else if r.len() == 0 {
        Some(f)
    } else if is_rooted(f) != is_rooted(r) {
        None
    } else if is_rooted(r) {
        below(f, r)
    } else if f.take(m) != r.take(n) {
        None
    } else {
        below(f.skip(m), r.skip(n))
    }
}

/// The length of a path's prefix and of the separator behind it.
pub open spec fn head_len(s: Seq<char>) -> int {
    let d = prefix_len(s);
    if is_rooted(s.skip(d)) {
        d + 1
    } else {
        d
    }
}

/// A path relative to its share's root: backslashes for separators, none at either
/// end. All of a path that does not lie below the root.
pub open spec fn relative_path(full: Seq<char>, local_root: Seq<char>) -> Seq<char> {
    let f = backslashed(full);
    let r = backslashed(local_root);
    without_head(
        if r.len() == 0 {
            to_component(f, head_len(f))
        } else {
            match below_root(f, r) {
                Some(rest) => to_component(rest, 0),
                None => f,
            }
        },
    )
}

/// A path below a root, as a walk writes it.
pub open spec fn joined(root: Seq<char>, rel: Seq<char>) -> Seq<char> {
    if root.len() == 0 || root.last() == '\\' || root.last() == '/' || (root.len() == 2
        && drive_len(root) == 2) {
        root + rel
    } else {
        root + seq!['\\'] + rel
    }
}

/// A path that begins and ends with a component.
pub open spec fn is_tight(rel: Seq<char>) -> bool {
    from_component(rel) == rel && to_component(rel, 0) == rel
}

/// A server without a share.
pub open spec fn is_bare_server(r: Seq<char>) -> bool {
    let a = first_at(r.skip(2), '\\');
    r.len() > 2 && r[0] == '\\' && r[1] == '\\' && a > 0 && r.len() <= 3 + a
}

/// The inventory joins to the heat records: a file found below its share's root has
/// the key of an open that names it relative to the share, however the root is
/// written. Below a bare server there are shares, not files.
pub proof fn law_walked_path_is_heat_path(root: Seq<char>, rel: Seq<char>)
    requires
        !rel.contains('/'),
        is_tight(rel),
        is_bare_server(backslashed(root)) ==> rel.len() == 0,
    ensures
        relative_path(joined(root, rel), root) == rel,
        lowercase(relative_path(joined(root, rel), root)) == lowercase(rel),
{
    let full = backslashed(joined(root, rel));
    let r = backslashed(root);
    assert forall|i: int| 0 <= i < rel.len() implies #[trigger] rel[i] != '/' by {
        assert(rel.contains(rel[i]));
    }
    lemma_from_component(rel);
    assert(without_head(rel) == rel);
    if root.len() == 0 {
        assert(full =~= rel);
        lemma_keeps_more(rel, head_len(full));
    } else if root.len() == 2 && drive_len(root) == 2 {
        assert(full =~= r + rel);
        assert(full.skip(2) =~= rel);
        assert(r.skip(2).len() == 0);
        assert(full[0] == r[0] && full[1] == r[1]);
        assert(full.take(0) =~= r.take(0));
    } else {
        assert(r.last() == '\\' <==> root.last() == '\\' || root.last() == '/');
        let y = if r.last() == '\\' {
            rel
        } else {
            seq!['\\'] + rel
        };
        assert(full =~= r + y);
        if r.last() != '\\' {
            assert(y.skip(1) =~= rel);
        }
        assert(from_component(y) == rel);
        if r =~= seq!['\\', '\\'] && unc_len(full) > 0 {
            // The path names a server and a share of its own.
            assert(unc_len(r) == 0);
            assert(full.skip(1) =~= seq!['\\'] + rel);
            assert(full.skip(1).skip(1) =~= rel);
            assert(full[0] == '\\' && full.skip(1)[0] == '\\');
            assert(without_head(full.skip(1)) == without_head(full.skip(1).skip(1)));
            assert(without_head(full) == without_head(full.skip(1)));
        } else {
            lemma_prefix_stays(r, y);
            lemma_below_root(r, y);
        }
    }
}

/// A root, a separator and a path: what is left is the path, whatever the root is called.
/// A separator behind the path makes no difference, and a root that is written with its
/// last separator none either. (The root is no drive alone and names no server.)
pub proof fn law_root_is_taken_away(root: Seq<char>, rel: Seq<char>)
    requires
        root.len() > 0,
        root.last() != '\\' && root.last() != '/',
        !(root.len() == 2 && root[1] == ':'),
        !(root.len() > 1 && (root[0] == '\\' || root[0] == '/') && (root[1] == '\\' || root[1]
            == '/')),
        rel.len() > 0,
        !rel.contains('/'),
        rel[0] != '\\' && rel.last() != '\\',
        rel[0] == '.' ==> rel.len() > 1 && rel[1] != '\\',
        rel.last() == '.' && rel.len() > 1 ==> rel[rel.len() - 2] != '\\',
    ensures
        relative_path(root + seq!['\\'] + rel, root) == rel,
        relative_path(root + seq!['\\'] + rel, root + seq!['\\']) == rel,
        relative_path(root + seq!['\\'] + rel + seq!['\\'], root) == rel,
{
    let sep = seq!['\\'];
    let r = backslashed(root);
    assert(from_component(rel) == rel);
    assert(to_component(rel, 0) == rel);
    assert(r.last() != '\\');
    assert(!is_bare_server(r));
    law_walked_path_is_heat_path(root, rel);
    assert(joined(root, rel) == root + sep + rel);
    let longer = root + sep;
    assert(longer.last() == '\\');
    assert(backslashed(longer) =~= r + sep);
    if longer.len() > 2 {
        assert((r + sep)[0] == r[0] && (r.len() > 1 ==> (r + sep)[1] == r[1]));
    }
    assert(!is_bare_server(backslashed(longer)));
    law_walked_path_is_heat_path(longer, rel);
    assert(joined(longer, rel) =~= root + sep + rel);
    assert forall|i: int| 0 <= i < rel.len() implies #[trigger] rel[i] != '/' by {
        assert(rel.contains(rel[i]));
    }
    let y = sep + rel + sep;
    let f = backslashed(root + sep + rel + sep);
    assert(f =~= r + y);
    lemma_prefix_stays(r, y);
    lemma_below_root(r, y);
    assert(y.skip(1) =~= rel + sep);
    assert((rel + sep)[0] == rel[0] && (rel.len() > 1 ==> (rel + sep)[1] == rel[1]));
    assert(from_component(rel + sep) == rel + sep);
    assert(from_component(y) == from_component(y.skip(1)));
    assert((rel + sep).drop_last() =~= rel);
    assert((rel + sep).last() == '\\');
    assert(to_component(rel + sep, 0) == to_component(rel, 0));
    assert(without_head(rel) == rel);
}

/// A path on another drive than the root's is no path below it: all of it stays, with
/// backslashes.
pub proof fn law_other_drive_stays(full: Seq<char>, root: Seq<char>)
    requires
        full.len() >= 2 && root.len() >= 2,
        full[1] == ':' && root[1] == ':',
        'a' <= full[0] <= 'z' && 'a' <= root[0] <= 'z',
        full[0] != root[0],
    ensures
        relative_path(full, root) == backslashed(full),
{
    let f = backslashed(full);
    let r = backslashed(root);
    assert(f[0] == full[0] && r[0] == root[0]);
    assert(!same_prefix(f, r));
    assert(below_root(f, r) is None);
    assert(without_head(f) == f);
}

/// The letter of a drive has no case.
pub proof fn law_drive_letter_has_no_case(full: Seq<char>, root: Seq<char>, upper: char)
    requires
        root.len() >= 2,
        root[1] == ':',
        'a' <= root[0] <= 'z',
        upper as int == root[0] as int - 32,
    ensures
        relative_path(full, root.update(0, upper)) == relative_path(full, root),
{
    let f = backslashed(full);
    let r = backslashed(root);
    let u = backslashed(root.update(0, upper));
    assert('A' <= upper <= 'Z');
    lemma_drive_case(root[0], upper);
    assert(u[0] == upper && u[1] == ':' && r[1] == ':');
    assert(u.skip(2) =~= r.skip(2));
    assert(unc_len(u) == 0 && unc_len(r) == 0);
    assert(drive_len(u) == 2 && drive_len(r) == 2);
    assert(u.take(0) =~= r.take(0));
    assert(same_prefix(f, u) == same_prefix(f, r));
}

proof fn lemma_drive_case(lower: char, upper: char)
    requires
        'a' <= lower <= 'z',
        upper as int == lower as int - 32,
    ensures
        ascii_lower(upper) == lower,
        ascii_lower(lower) == lower,
{
}

/// Repeated separators and `.` pieces between a root and a path count for nothing.
pub proof fn law_dots_and_separators_are_nothing(root: Seq<char>, rel: Seq<char>)
    requires
        root.len() > 0,
        root.last() != '\\' && root.last() != '/',
        !(root.len() == 2 && root[1] == ':'),
        !(root.len() > 1 && (root[0] == '\\' || root[0] == '/') && (root[1] == '\\' || root[1]
            == '/')),
        rel.len() > 0,
        !rel.contains('/'),
        rel[0] != '\\' && rel.last() != '\\',
        rel[0] == '.' ==> rel.len() > 1 && rel[1] != '\\',
        rel.last() == '.' && rel.len() > 1 ==> rel[rel.len() - 2] != '\\',
    ensures
        relative_path(root + seq!['\\', '\\'] + rel, root) == rel,
        relative_path(root + seq!['\\', '.', '\\'] + rel, root) == rel,
        relative_path(root + seq!['/'] + rel, root) == rel,
        relative_path(root + seq!['\\'] + rel + seq!['\\', '.'], root) == rel,
{
    let r = backslashed(root);
    let sep = seq!['\\'];
    assert(from_component(rel) == rel);
    assert(to_component(rel, 0) == rel);
    assert(without_head(rel) == rel);
    assert(r.last() != '\\');
    assert(!is_bare_server(r));
    assert forall|i: int| 0 <= i < rel.len() implies #[trigger] rel[i] != '/' by {
        assert(rel.contains(rel[i]));
    }
    let y1 = seq!['\\', '\\'] + rel;
    assert(backslashed(root + seq!['\\', '\\'] + rel) =~= r + y1);
    assert(y1.skip(1).skip(1) =~= rel);
    assert(y1.skip(1)[0] == '\\');
    assert(from_component(y1) == from_component(y1.skip(1)));
    assert(from_component(y1.skip(1)) == from_component(y1.skip(1).skip(1)));
    lemma_prefix_stays(r, y1);
    lemma_below_root(r, y1);
    let y2 = seq!['\\', '.', '\\'] + rel;
    assert(backslashed(root + seq!['\\', '.', '\\'] + rel) =~= r + y2);
    let (t1, t2) = (y2.skip(1), y2.skip(1).skip(1));
    assert(t1[0] == '.' && t1[1] == '\\');
    assert(t2[0] == '\\');
    assert(t2.skip(1) =~= rel);
    assert(from_component(y2) == from_component(t1));
    assert(from_component(t1) == from_component(t2));
    assert(from_component(t2) == from_component(t2.skip(1)));
    lemma_prefix_stays(r, y2);
    lemma_below_root(r, y2);
    let y3 = sep + rel;
    assert(backslashed(root + seq!['/'] + rel) =~= r + y3);
    assert(y3.skip(1) =~= rel);
    assert(from_component(y3) == from_component(y3.skip(1)));
    lemma_prefix_stays(r, y3);
    lemma_below_root(r, y3);
    let end = seq!['\\', '.'];
    let y4 = sep + rel + end;
    assert(backslashed(root + sep + rel + end) =~= r + y4);
    let u = rel + end;
    assert(y4.skip(1) =~= u);
    assert(u[0] == rel[0] && (rel.len() > 1 ==> u[1] == rel[1]));
    assert(rel.len() == 1 ==> u[1] == '\\');
    assert(from_component(y4) == from_component(y4.skip(1)));
    assert(!at_dot(u));
    assert(from_component(u) == u);
    assert(u.last() == '.' && u[u.len() - 2] == '\\');
    assert(u.drop_last() =~= rel + sep);
    assert((rel + sep).last() == '\\');
    assert((rel + sep).drop_last() =~= rel);
    assert(to_component(u, 0) == to_component(rel + sep, 0));
    assert(to_component(rel + sep, 0) == to_component(rel, 0));
    lemma_prefix_stays(r, y4);
    lemma_below_root(r, y4);
}

/// A share of another server, or another share, is no root of a path: all of the path
/// stays but for the separators at its front. Neither name is taken without its case.
pub proof fn law_other_share_stays(
    server: Seq<char>,
    share: Seq<char>,
    other_server: Seq<char>,
    other_share: Seq<char>,
    rest: Seq<char>,
)
    requires
        server.len() > 0 && share.len() > 0 && other_server.len() > 0 && other_share.len() > 0,
        !server.contains('\\') && !share.contains('\\'),
        !other_server.contains('\\') && !other_share.contains('\\'),
        !server.contains('/') && !share.contains('/') && !rest.contains('/'),
        !other_server.contains('/') && !other_share.contains('/'),
        server != other_server || share != other_share,
    ensures
        ({
            let two = seq!['\\', '\\'];
            let sep = seq!['\\'];
            relative_path(
                two + server + sep + share + sep + rest,
                two + other_server + sep + other_share,
            ) == server + sep + share + sep + rest
        }),
{
    let two = seq!['\\', '\\'];
    let sep = seq!['\\'];
    let full = two + server + sep + share + sep + rest;
    let root = two + other_server + sep + other_share;
    assert forall|i: int| 0 <= i < server.len() implies #[trigger] server[i] != '\\' && server[i]
        != '/' by {
        assert(server.contains(server[i]));
    }
    assert forall|i: int| 0 <= i < share.len() implies #[trigger] share[i] != '\\' && share[i]
        != '/' by {
        assert(share.contains(share[i]));
    }
    assert forall|i: int| 0 <= i < other_server.len() implies #[trigger] other_server[i] != '\\'
        && other_server[i] != '/' by {
        assert(other_server.contains(other_server[i]));
    }
    assert forall|i: int| 0 <= i < other_share.len() implies #[trigger] other_share[i] != '\\'
        && other_share[i] != '/' by {
        assert(other_share.contains(other_share[i]));
    }
    assert forall|i: int| 0 <= i < rest.len() implies #[trigger] rest[i] != '/' by {
        assert(rest.contains(rest[i]));
    }
    assert(backslashed(full) =~= full);
    assert(backslashed(root) =~= root);
    lemma_unc_len(server, share, sep + rest);
    assert(two + server + sep + share + (sep + rest) =~= full);
    lemma_unc_len(other_server, other_share, Seq::empty());
    assert(two + other_server + sep + other_share + Seq::<char>::empty() =~= root);
    let (a, b) = (unc_len(full), unc_len(root));
    if same_prefix(full, root) {
        assert(full.take(a) =~= two + server + sep + share);
        assert(root.take(b) =~= two + other_server + sep + other_share);
        let (x, y) = (full.take(a), root.take(b));
        assert(x == y);
        assert(server.len() == other_server.len()) by {
            if server.len() < other_server.len() {
                assert(x[2 + server.len() as int] == '\\');
                assert(y[2 + server.len() as int] == other_server[server.len() as int]);
            }
            if other_server.len() < server.len() {
                assert(y[2 + other_server.len() as int] == '\\');
                assert(x[2 + other_server.len() as int] == server[other_server.len() as int]);
            }
        }
        let n = server.len() as int;
        assert(x.subrange(2, 2 + n) =~= server);
        assert(y.subrange(2, 2 + n) =~= other_server);
        assert(x.skip(3 + n) =~= share);
        assert(y.skip(3 + n) =~= other_share);
    }
    assert(below_root(full, root) is None);
    let left = server + sep + share + sep + rest;
    assert(full.skip(1).skip(1) =~= left);
    assert(full.skip(1)[0] == '\\');
    assert(left[0] == server[0]);
    assert(without_head(full) == without_head(full.skip(1)));
    assert(without_head(full.skip(1)) == without_head(full.skip(1).skip(1)));
    assert(without_head(left) == left);
}

proof fn lemma_unc_len(server: Seq<char>, share: Seq<char>, tail: Seq<char>)
    requires
        server.len() > 0 && share.len() > 0,
        forall|i: int| 0 <= i < server.len() ==> #[trigger] server[i] != '\\',
        forall|i: int| 0 <= i < share.len() ==> #[trigger] share[i] != '\\',
        tail.len() > 0 ==> tail[0] == '\\',
    ensures
        unc_len(seq!['\\', '\\'] + server + seq!['\\'] + share + tail) == 3 + server.len()
            + share.len(),
{
    let s = seq!['\\', '\\'] + server + seq!['\\'] + share + tail;
    let n = server.len() as int;
    let t = s.skip(2);
    assert(t[n] == '\\');
    assert forall|j: int| 0 <= j < n implies t[j] != '\\' by {
        assert(t[j] == server[j]);
    }
    lemma_first_at_is(t, '\\', n);
    let u = s.skip(3 + n);
    let m = share.len() as int;
    assert forall|j: int| 0 <= j < m implies u[j] != '\\' by {
        assert(u[j] == share[j]);
    }
    if m < u.len() {
        assert(u[m] == tail[0]);
    }
    lemma_first_at_is(u, '\\', m);
}

/// What is left of a path is a part of it, with backslashes: nothing is put in and
/// nothing is taken out between.
pub proof fn law_relative_path_is_a_part(full: Seq<char>, root: Seq<char>) -> (part: (int, int))
    ensures
        0 <= part.0 <= part.1 <= full.len(),
        relative_path(full, root) == backslashed(full).subrange(part.0, part.1),
{
    let f = backslashed(full);
    let r = backslashed(root);
    if r.len() == 0 {
        let n = lemma_front_kept(f, head_len(f));
        let i = lemma_end_kept(f.take(n));
        assert(f.take(n).skip(i) =~= f.subrange(i, n));
        (i, n)
    } else {
        match below_root(f, r) {
            Some(rest) => {
                let a = lemma_below_root_is_end(f, r);
                let n = lemma_front_kept(rest, 0);
                let i = lemma_end_kept(rest.take(n));
                assert(rest.take(n).skip(i) =~= f.subrange(a + i, a + n));
                (a + i, a + n)
            },
            None => {
                let i = lemma_end_kept(f);
                assert(f.skip(i) =~= f.subrange(i, f.len() as int));
                (i, f.len() as int)
            },
        }
    }
}

proof fn lemma_front_kept(s: Seq<char>, keep: int) -> (n: int)
    ensures
        0 <= n <= s.len(),
        to_component(s, keep) == s.take(n),
    decreases s.len(),
{
    if s.len() > keep && s.len() > 0 && (s.last() == '\\' || (s.len() > 1 && s.last() == '.'
        && s[s.len() - 2] == '\\')) {
        let n = lemma_front_kept(s.drop_last(), keep);
        assert(s.drop_last().take(n) =~= s.take(n));
        n
    } else {
        assert(s.take(s.len() as int) =~= s);
        s.len() as int
    }
}

proof fn lemma_end_kept(s: Seq<char>) -> (i: int)
    ensures
        0 <= i <= s.len(),
        without_head(s) == s.skip(i),
    decreases s.len(),
{
    if s.len() > 0 && s[0] == '\\' {
        let i = lemma_end_kept(s.skip(1));
        assert(s.skip(1).skip(i) =~= s.skip(i + 1));
        i + 1
    } else {
        assert(s.skip(0) =~= s);
        0
    }
}

proof fn lemma_below_is_end(full: Seq<char>, root: Seq<char>) -> (i: int)
    requires
        below(full, root) is Some,
    ensures
        0 <= i <= full.len(),
        below(full, root)->0 == full.skip(i),
    decreases root.len(),
{
    let f = from_component(full);
    let r = from_component(root);
    let n = first_at(r, '\\');
    let m = first_at(f, '\\');
    lemma_from_component(full);
    lemma_from_component(root);
    lemma_first_at(r, '\\');
    lemma_first_at(f, '\\');
    let a = full.len() - f.len();
    if r.len() == 0 {
        a
    } else {
        let j = lemma_below_is_end(f.skip(m), r.skip(n));
        assert(f.skip(m).skip(j) =~= full.skip(a + m + j));
        a + m + j
    }
}

proof fn lemma_below_root_is_end(full: Seq<char>, root: Seq<char>) -> (i: int)
    requires
        below_root(full, root) is Some,
    ensures
        0 <= i <= full.len(),
        below_root(full, root)->0 == full.skip(i),
{
    let d = prefix_len(root);
    let f = full.skip(d);
    let r = root.skip(d);
    let n = first_at(r, '\\');
    let m = first_at(f, '\\');
    lemma_first_at(f, '\\');
    lemma_first_at(full.skip(2), '\\');
    if unc_len(full) > 0 {
        lemma_first_at(full.skip(3 + first_at(full.skip(2), '\\')), '\\');
    }
    assert(0 <= d <= full.len());
    if unc_len(root) > 0 {
        let j = lemma_below_is_end(f, r);
        assert(f.skip(j) =~= full.skip(d + j));
        d + j
    } else if r.len() == 0 {
        d
    } else if is_rooted(r) {
        let j = lemma_below_is_end(f, r);
        assert(f.skip(j) =~= full.skip(d + j));
        d + j
    } else {
        let j = lemma_below_is_end(f.skip(m), r.skip(n));
        assert(f.skip(m).skip(j) =~= full.skip(d + m + j));
        d + m + j
    }
}

/// A path into another directory than the root's first is no path below it, on the same
/// drive or without one: all of it stays but for a separator at its front.
pub proof fn law_other_directory_stays(
    drive: Seq<char>,
    a: Seq<char>,
    more: Seq<char>,
    b: Seq<char>,
    rest: Seq<char>,
)
    requires
        drive.len() == 0 || (drive.len() == 2 && 'a' <= drive[0] <= 'z' && drive[1] == ':'),
        a.len() > 0 && b.len() > 0 && a != b,
        !a.contains('\\') && !b.contains('\\'),
        !a.contains('/') && !b.contains('/') && !more.contains('/') && !rest.contains('/'),
        a != seq!['.'] && b != seq!['.'],
        more.len() > 0 ==> more[0] == '\\',
        rest.len() > 0 ==> rest[0] == '\\',
    ensures
        ({
            let sep = seq!['\\'];
            relative_path(drive + sep + a + more, drive + sep + b + rest) == if drive.len() > 0 {
                drive + sep + a + more
            } else {
                a + more
            }
        }),
{
    let sep = seq!['\\'];
    let full = drive + sep + a + more;
    let root = drive + sep + b + rest;
    let d = drive.len() as int;
    assert forall|i: int| 0 <= i < a.len() implies #[trigger] a[i] != '\\' && a[i] != '/' by {
        assert(a.contains(a[i]));
    }
    assert forall|i: int| 0 <= i < b.len() implies #[trigger] b[i] != '\\' && b[i] != '/' by {
        assert(b.contains(b[i]));
    }
    assert forall|i: int| 0 <= i < more.len() implies #[trigger] more[i] != '/' by {
        assert(more.contains(more[i]));
    }
    assert forall|i: int| 0 <= i < rest.len() implies #[trigger] rest[i] != '/' by {
        assert(rest.contains(rest[i]));
    }
    assert(backslashed(full) =~= full);
    assert(backslashed(root) =~= root);
    if d == 0 {
        assert(full[1] == a[0] && root[1] == b[0]);
    }
    assert(unc_len(full) == 0 && unc_len(root) == 0);
    let f = sep + a + more;
    let r = sep + b + rest;
    assert(full.skip(d) =~= f);
    assert(root.skip(d) =~= r);
    if d == 0 {
        assert(full =~= f && root =~= r);
        assert(drive_len(full) == 0 && drive_len(root) == 0);
    } else {
        assert(full[0] == drive[0] && full[1] == ':' && root[0] == drive[0] && root[1] == ':');
    }
    lemma_directory(a, more);
    lemma_directory(b, rest);
    assert(below(f, r) is None);
    assert(below_root(full, root) is None);
    if d == 0 {
        assert(full.skip(1) =~= a + more);
        assert((a + more)[0] == a[0]);
        assert(without_head(full) == without_head(full.skip(1)));
        assert(without_head(a + more) == a + more);
    } else {
        assert(without_head(full) == full);
    }
}

proof fn lemma_directory(a: Seq<char>, more: Seq<char>)
    requires
        a.len() > 0,
        a != seq!['.'],
        forall|i: int| 0 <= i < a.len() ==> #[trigger] a[i] != '\\',
        more.len() > 0 ==> more[0] == '\\',
    ensures
        from_component(seq!['\\'] + a + more) == a + more,
        first_at(a + more, '\\') == a.len(),
        (a + more).take(a.len() as int) == a,
{
    let s = seq!['\\'] + a + more;
    let t = a + more;
    assert(s.skip(1) =~= t);
    assert(t[0] == a[0]);
    assert(!at_dot(t)) by {
        if at_dot(t) {
            if a.len() == 1 {
                assert(a =~= seq!['.']);
            } else {
                assert(t[1] == a[1]);
            }
        }
    }
    assert(from_component(s) == from_component(s.skip(1)));
    assert forall|j: int| 0 <= j < a.len() implies t[j] != '\\' by {
        assert(t[j] == a[j]);
    }
    if more.len() > 0 {
        assert(t[a.len() as int] == more[0]);
    }
    lemma_first_at_is(t, '\\', a.len() as int);
    assert(t.take(a.len() as int) =~= a);
}

/// A path whose components only begin like the root's does not lie below it: a longer
/// name is another name.
pub proof fn law_longer_name_is_another(root: Seq<char>, more: Seq<char>)
    requires
        root.len() > 3,
        'a' <= root[0] <= 'z' && root[1] == ':' && root[2] == '\\',
        root.last() != '\\' && root.last() != '.',
        more.len() > 0,
        more[0] != '\\',
        !root.contains('/') && !more.contains('/'),
    ensures
        relative_path(root + more, root) == root + more,
{
    assert forall|i: int| 0 <= i < root.len() implies #[trigger] root[i] != '/' by {
        assert(root.contains(root[i]));
    }
    assert forall|i: int| 0 <= i < more.len() implies #[trigger] more[i] != '/' by {
        assert(more.contains(more[i]));
    }
    let full = root + more;
    assert(backslashed(root) =~= root);
    assert(backslashed(full) =~= full);
    assert(full[0] == root[0] && full[1] == ':');
    assert(unc_len(root) == 0 && unc_len(full) == 0);
    let r = root.skip(2);
    assert(full.skip(2) =~= r + more);
    assert(r.last() == root.last() && r[0] == '\\' && (r + more)[0] == '\\');
    lemma_not_below(r, more);
    assert(below_root(full, root) is None);
    assert(without_head(full) == full);
}

proof fn lemma_not_below(r: Seq<char>, y: Seq<char>)
    requires
        r.len() > 0,
        r.last() != '\\' && r.last() != '.',
        y.len() > 0,
        y[0] != '\\',
    ensures
        below(r + y, r) is None,
    decreases r.len(),
{
    lemma_from_component(r);
    lemma_from_inside(r, y);
    let t = from_component(r);
    let f = from_component(r + y);
    let n = first_at(t, '\\');
    let m = first_at(f, '\\');
    lemma_first_at(t, '\\');
    lemma_first_at(f, '\\');
    assert(f == t + y);
    if n < t.len() {
        assert forall|j: int| 0 <= j < n implies f[j] != '\\' by {
            assert(f[j] == t[j]);
        }
        assert(f[n] == t[n]);
        lemma_first_at_is(f, '\\', n);
        assert(f.skip(n) =~= t.skip(n) + y);
        assert(t.skip(n).last() == t.last());
        lemma_not_below(t.skip(n), y);
    } else {
        assert(m > n) by {
            if m <= n {
                if m < n {
                    assert(f[m] == t[m]);
                } else {
                    assert(f[n] == y[0]);
                }
            }
        }
        assert(f.take(m).len() != t.take(n).len());
    }
}

/// Of a path that ends within a component, more text changes nothing at the front.
proof fn lemma_from_inside(r: Seq<char>, y: Seq<char>)
    requires
        r.len() > 0,
        r.last() != '\\' && r.last() != '.',
    ensures
        from_component(r).len() > 0,
        from_component(r + y) == from_component(r) + y,
    decreases r.len(),
{
    let s = r + y;
    assert(s[0] == r[0]);
    if r.len() > 1 {
        assert(s[1] == r[1]);
    }
    if r[0] == '\\' || at_dot(r) {
        assert(r.len() > 1);
        assert(s.skip(1) =~= r.skip(1) + y);
        assert(r.skip(1).last() == r.last());
        lemma_from_inside(r.skip(1), y);
    } else {
        if r.len() == 1 {
            assert(!at_dot(s));
        }
    }
}

/// A path below a root has the root's prefix.
proof fn lemma_prefix_stays(r: Seq<char>, y: Seq<char>)
    requires
        is_boundary(r, y),
        r.len() > 0,
        r.last() == '\\' && y.len() > 0 ==> y[0] != '\\',
        is_bare_server(r) ==> y.len() == 0 || y == seq!['\\'],
        r == seq!['\\', '\\'] ==> unc_len(r + y) == 0,
    ensures
        unc_len(r + y) == unc_len(r),
        drive_len(r + y) == drive_len(r),
        (r + y).take(unc_len(r)) == r.take(unc_len(r)),
        unc_len(r) <= r.len(),
{
    let s = r + y;
    assert(s[0] == r[0]);
    if r.len() > 1 {
        assert(s[1] == r[1]);
    }
    if r.len() == 1 {
        if y.len() > 0 {
            assert(s[1] == y[0]);
        }
    } else if r.len() == 2 {
        if r[0] == '\\' && r[1] == '\\' {
            assert(r =~= seq!['\\', '\\']);
        }
    } else if r[0] == '\\' && r[1] == '\\' {
        let t = r.skip(2);
        let a = first_at(t, '\\');
        lemma_first_at(t, '\\');
        assert(s.skip(2) =~= t + y);
        assert(t.last() == r.last());
        if t[0] == '\\' {
            lemma_first_at_is(t + y, '\\', 0);
        } else {
            lemma_first_piece(t, y);
            if is_bare_server(r) {
                if y.len() > 0 && s.len() == 3 + a {
                    assert(s.skip(3 + a).len() == 0);
                }
                if y.len() == 0 {
                    assert(s =~= r);
                }
            } else {
                let u = r.skip(3 + a);
                assert(s.skip(3 + a) =~= u + y);
                assert(u.last() == r.last());
                lemma_first_at(u, '\\');
                if u[0] == '\\' {
                    lemma_first_at_is(u + y, '\\', 0);
                } else {
                    lemma_first_piece(u, y);
                }
            }
        }
    }
    if unc_len(r) > 0 {
        lemma_first_at(r.skip(3 + first_at(r.skip(2), '\\')), '\\');
    }
    assert(s.take(unc_len(r)) =~= r.take(unc_len(r)));
}

/// What is kept at the end already stays where more has to.
proof fn lemma_keeps_more(s: Seq<char>, keep: int)
    requires
        to_component(s, 0) == s,
        0 <= keep,
    ensures
        to_component(s, keep) == s,
{
    if s.len() > 0 {
        lemma_to_component_len(s.drop_last(), 0);
    }
}

proof fn lemma_to_component_len(s: Seq<char>, keep: int)
    ensures
        to_component(s, keep).len() <= s.len(),
    decreases s.len(),
{
    if s.len() > 0 {
        lemma_to_component_len(s.drop_last(), keep);
    }
}

/// What `from_component` leaves is the end of the path, from a component on.
pub proof fn lemma_from_component(s: Seq<char>)
    ensures
        from_component(s).len() <= s.len(),
        from_component(s) == s.skip(s.len() - from_component(s).len()),
        from_component(s).len() > 0 ==> from_component(s)[0] != '\\' && from_component(s).last()
            == s.last() && !at_dot(from_component(s)),
    decreases s.len(),
{
    if (s.len() > 0 && s[0] == '\\') || at_dot(s) {
        let t = s.skip(1);
        lemma_from_component(t);
        assert(t.skip(t.len() - from_component(t).len()) =~= s.skip(
            s.len() - from_component(s).len(),
        ));
    } else {
        assert(s.skip(0) =~= s);
    }
}

/// A component ends where `r` does, or `y` begins with a separator.
spec fn is_boundary(r: Seq<char>, y: Seq<char>) -> bool {
    r.len() == 0 || r.last() == '\\' || (y.len() > 0 && y[0] == '\\')
}

proof fn lemma_from_component_concat(r: Seq<char>, y: Seq<char>)
    requires
        is_boundary(r, y),
    ensures
        from_component(r + y) == if from_component(r).len() == 0 {
            from_component(y)
        } else {
            from_component(r) + y
        },
    decreases r.len(),
{
    let s = r + y;
    if r.len() == 0 {
        assert(s =~= y);
    } else if r[0] == '\\' || at_dot(r) {
        assert(s.skip(1) =~= r.skip(1) + y);
        if at_dot(r) && r.len() > 1 {
            assert(s[1] == r[1]);
        }
        lemma_from_component_concat(r.skip(1), y);
    } else {
        assert(s[0] == r[0]);
        if r.len() > 1 {
            assert(s[1] == r[1]);
        }
    }
}

/// The first piece of `r + y` is that of `r`.
proof fn lemma_first_piece(r: Seq<char>, y: Seq<char>)
    requires
        is_boundary(r, y),
        r.len() > 0,
        r[0] != '\\',
    ensures
        ({
            let n = first_at(r, '\\');
            &&& 0 < n <= r.len()
            &&& first_at(r + y, '\\') == n
            &&& (r + y).take(n) == r.take(n)
            &&& (r + y).skip(n) == r.skip(n) + y
            &&& is_boundary(r.skip(n), y)
        }),
{
    lemma_first_at(r, '\\');
    let n = first_at(r, '\\');
    let s = r + y;
    assert forall|j: int| 0 <= j < n implies s[j] != '\\' by {
        assert(s[j] == r[j]);
    }
    if n == r.len() {
        assert(r.last() == r[n - 1]);
        assert(s[n] == y[0]);
    } else {
        assert(s[n] == r[n]);
        assert(r.skip(n).last() == r.last());
    }
    lemma_first_at_is(s, '\\', n);
    assert(s.take(n) =~= r.take(n));
    assert(s.skip(n) =~= r.skip(n) + y);
}

proof fn lemma_below(r: Seq<char>, y: Seq<char>)
    requires
        is_boundary(r, y),
    ensures
        below(r + y, r) == Some(from_component(y)),
    decreases r.len(),
{
    lemma_from_component(r);
    lemma_from_component_concat(r, y);
    let t = from_component(r);
    if t.len() > 0 {
        lemma_first_piece(t, y);
        lemma_below(t.skip(first_at(t, '\\')), y);
    }
}

proof fn lemma_below_root(r: Seq<char>, y: Seq<char>)
    requires
        is_boundary(r, y),
        r.len() > 0,
        !(r.len() == 2 && drive_len(r) == 2),
        unc_len(r + y) == unc_len(r),
        drive_len(r + y) == drive_len(r),
        (r + y).take(unc_len(r)) == r.take(unc_len(r)),
        unc_len(r) <= r.len(),
    ensures
        below_root(r + y, r) == Some(from_component(y)),
{
    let s = r + y;
    let d = prefix_len(r);
    assert(s[0] == r[0]);
    assert(same_prefix(s, r));
    let t = r.skip(d);
    assert(s.skip(d) =~= t + y);
    if t.len() > 0 {
        assert(t.last() == r.last());
        assert((t + y)[0] == t[0]);
    }
    if unc_len(r) > 0 || is_rooted(t) {
        lemma_below(t, y);
    } else {
        lemma_first_piece(t, y);
        lemma_below(t.skip(first_at(t, '\\')), y);
    }
}

fn backslash_chars(s: &str) -> (r: Vec<char>)
    ensures
        r@ == backslashed(s@),
{
    let v = chars_of(s);
    let mut out: Vec<char> = Vec::new();
    let mut i: usize = 0;
    while i < v.len()
        invariant
            i <= v@.len(),
            v@ == s@,
            out@ == backslashed(s@.take(i as int)),
        decreases v@.len() - i,
    {
        let c = v[i];
        out.push(
            if c == '/' {
                '\\'
            } else {
                c
            },
        );
        assert(out@ =~= backslashed(s@.take(i + 1)));
        i = i + 1;
    }
    assert(s@.take(s@.len() as int) =~= s@);
    out
}

fn lower_letter(c: char) -> (r: char)
    ensures
        r == ascii_lower(c),
{
    if 'A' <= c && c <= 'Z' {
        (c as u8 + 32) as char
    } else {
        c
    }
}

fn drive(s: &Vec<char>) -> (r: usize)
    ensures
        r == drive_len(s@),
{
    if s.len() >= 2 && s[1] == ':' {
        let c = lower_letter(s[0]);
        if 'a' <= c && c <= 'z' {
            return 2;
        }
    }
    0
}

/// The length of the server and the share.
fn unc(s: &Vec<char>) -> (r: usize)
    ensures
        r == unc_len(s@),
        r <= s@.len(),
{
    let n = s.len();
    if n > 2 && s[0] == '\\' && s[1] == '\\' {
        let a = piece_end(s, 2);
        if a > 2 && a < n {
            let b = piece_end(s, a + 1);
            if b > a + 1 {
                return b;
            }
        }
    }
    0
}

/// Where the first component begins, from `i` on.
fn component_start(s: &Vec<char>, i: usize) -> (r: usize)
    requires
        i <= s@.len(),
    ensures
        i <= r <= s@.len(),
        s@.skip(r as int) == from_component(s@.skip(i as int)),
{
    let mut j: usize = i;
    while j < s.len() && (s[j] == '\\' || (s[j] == '.' && (j + 1 == s.len() || s[j + 1] == '\\')))
        invariant
            i <= j <= s@.len(),
            from_component(s@.skip(j as int)) == from_component(s@.skip(i as int)),
        decreases s@.len() - j,
    {
        assert(s@.skip(j as int).skip(1) =~= s@.skip(j + 1));
        j = j + 1;
    }
    j
}

/// Where the piece that begins at `i` ends.
fn piece_end(s: &Vec<char>, i: usize) -> (r: usize)
    requires
        i <= s@.len(),
    ensures
        i <= r <= s@.len(),
        r == i + first_at(s@.skip(i as int), '\\'),
{
    let mut j: usize = i;
    while j < s.len() && s[j] != '\\'
        invariant
            i <= j <= s@.len(),
            forall|x: int| i <= x < j ==> s@[x] != '\\',
        decreases s@.len() - j,
    {
        j = j + 1;
    }
    proof {
        lemma_first_at_is(s@.skip(i as int), '\\', j - i);
    }
    j
}

/// The pieces `i..m` of `f` and `j..n` of `r` are the same.
fn same_piece(f: &Vec<char>, i: usize, m: usize, r: &Vec<char>, j: usize, n: usize) -> (b: bool)
    requires
        i <= m <= f@.len(),
        j <= n <= r@.len(),
    ensures
        b == (f@.subrange(i as int, m as int) == r@.subrange(j as int, n as int)),
{
    let ghost a = f@.subrange(i as int, m as int);
    let ghost c = r@.subrange(j as int, n as int);
    if m - i != n - j {
        assert(a.len() != c.len());
        return false;
    }
    let mut k: usize = 0;
    while k < m - i
        invariant
            i <= m <= f@.len(),
            j <= n <= r@.len(),
            m - i == n - j,
            k <= m - i,
            a == f@.subrange(i as int, m as int),
            c == r@.subrange(j as int, n as int),
            forall|x: int| 0 <= x < k ==> a[x] == c[x],
        decreases m - i - k,
    {
        if f[i + k] != r[j + k] {
            assert(a[k as int] != c[k as int]);
            return false;
        }
        assert(a[k as int] == c[k as int]);
        k = k + 1;
    }
    assert(a =~= c);
    true
}

/// One component taken from each: it begins at the second place and ends at the third.
proof fn lemma_below_step(f: Seq<char>, i: (int, int, int), r: Seq<char>, j: (int, int, int))
    requires
        0 <= i.0 <= i.1 <= i.2 <= f.len(),
        0 <= j.0 <= j.1 <= j.2 <= r.len(),
        f.skip(i.1) == from_component(f.skip(i.0)),
        r.skip(j.1) == from_component(r.skip(j.0)),
        i.2 == i.1 + first_at(f.skip(i.1), '\\'),
        j.2 == j.1 + first_at(r.skip(j.1), '\\'),
        j.1 < r.len(),
    ensures
        j.2 > j.1,
        below(f.skip(i.0), r.skip(j.0)) == if f.subrange(i.1, i.2) == r.subrange(j.1, j.2) {
            below(f.skip(i.2), r.skip(j.2))
        } else {
            None
        },
{
    lemma_from_component(r.skip(j.0));
    lemma_first_at(r.skip(j.1), '\\');
    assert(f.skip(i.1).take(i.2 - i.1) =~= f.subrange(i.1, i.2));
    assert(r.skip(j.1).take(j.2 - j.1) =~= r.subrange(j.1, j.2));
    assert(f.skip(i.1).skip(i.2 - i.1) =~= f.skip(i.2));
    assert(r.skip(j.1).skip(j.2 - j.1) =~= r.skip(j.2));
}

/// Where what is left of `f` begins when the components of `r` are taken from it, both
/// from their given places on.
fn below_from(f: &Vec<char>, from: usize, r: &Vec<char>, root_from: usize) -> (b: Option<usize>)
    requires
        from <= f@.len(),
        root_from <= r@.len(),
    ensures
        match b {
            Some(i) => i <= f@.len() && below(f@.skip(from as int), r@.skip(root_from as int))
                == Some(f@.skip(i as int)),
            None => below(f@.skip(from as int), r@.skip(root_from as int)) is None,
        },
{
    let mut i: usize = from;
    let mut j: usize = root_from;
    let ghost goal = below(f@.skip(from as int), r@.skip(root_from as int));
    loop
        invariant
            i <= f@.len(),
            j <= r@.len(),
            goal == below(f@.skip(from as int), r@.skip(root_from as int)),
            below(f@.skip(i as int), r@.skip(j as int)) == goal,
        decreases r@.len() - j,
    {
        let i1 = component_start(f, i);
        let j1 = component_start(r, j);
        if j1 == r.len() {
            return Some(i1);
        }
        let m = piece_end(f, i1);
        let n = piece_end(r, j1);
        proof {
            lemma_below_step(
                f@,
                (i as int, i1 as int, m as int),
                r@,
                (j as int, j1 as int, n as int),
            );
        }
        if !same_piece(f, i1, m, r, j1, n) {
            return None;
        }
        i = m;
        j = n;
    }
}

/// Where what is left of `f` below `r` begins.
fn find_below(f: &Vec<char>, r: &Vec<char>) -> (b: Option<usize>)
    ensures
        match b {
            Some(i) => i <= f@.len() && below_root(f@, r@) == Some(f@.skip(i as int)),
            None => below_root(f@, r@) is None,
        },
{
    let u = unc(r);
    let v = drive(r);
    if unc(f) != u || drive(f) != v {
        return None;
    }
    proof {
        assert(f@.take(u as int) =~= f@.subrange(0, u as int));
        assert(r@.take(u as int) =~= r@.subrange(0, u as int));
    }
    if !same_piece(f, 0, u, r, 0, u) || (v > 0 && lower_letter(f[0]) != lower_letter(r[0])) {
        return None;
    }
    if u > 0 {
        return below_from(f, u, r, u);
    }
    let d = v;
    if r.len() == d {
        return Some(d);
    }
    let f_rooted = f.len() > d && f[d] == '\\';
    let r_rooted = r[d] == '\\';
    if f_rooted != r_rooted {
        return None;
    }
    if r_rooted {
        return below_from(f, d, r, d);
    }
    let m = piece_end(f, d);
    let n = piece_end(r, d);
    proof {
        assert(f@.skip(d as int).take(m - d) =~= f@.subrange(d as int, m as int));
        assert(r@.skip(d as int).take(n - d) =~= r@.subrange(d as int, n as int));
        assert(f@.skip(d as int).skip(m - d) =~= f@.skip(m as int));
        assert(r@.skip(d as int).skip(n - d) =~= r@.skip(n as int));
    }
    if !same_piece(f, d, m, r, d, n) {
        return None;
    }
    below_from(f, m, r, n)
}

/// The path of a file relative to its share's root, its case not yet folded.
pub fn relative(full: &str, local_root: &str) -> (r: String)
    ensures
        r@ == relative_path(full@, local_root@),
{
    let f = backslash_chars(full);
    let root = backslash_chars(local_root);
    let mut from: usize = 0;
    let mut to: usize = f.len();
    assert(f@.skip(0) =~= f@);
    let found = if root.len() == 0 {
        Some(0)
    } else {
        find_below(&f, &root)
    };
    if let Some(i) = found {
        from = i;
        let u = unc(&f);
        let d = if u > 0 {
            u
        } else {
            drive(&f)
        };
        let keep: usize = if root.len() > 0 {
            0
        } else if d < f.len() && f[d] == '\\' {
            d + 1
        } else {
            d
        };
        let ghost rest = f@.skip(from as int);
        assert(rest.take(rest.len() as int) =~= rest);
        while to > from && to - from > keep && (f[to - 1] == '\\' || (to - from > 1 && f[to - 1]
            == '.' && f[to - 2] == '\\'))
            invariant
                from <= to <= f@.len(),
                rest == f@.skip(from as int),
                to_component(rest.take(to - from), keep as int) == to_component(rest, keep as int),
            decreases to,
        {
            let ghost part = rest.take(to - from);
            assert(part.last() == f@[to - 1]);
            assert(part.drop_last() =~= rest.take(to - from - 1));
            to = to - 1;
        }
        assert(rest.take(to - from) == to_component(rest, keep as int)) by {
            let part = rest.take(to - from);
            if part.len() > 0 {
                assert(part.last() == f@[to - 1]);
            }
        }
    }
    let ghost rest = f@.subrange(from as int, to as int);
    assert(rest =~= f@.skip(from as int).take(to - from));
    assert(f@.subrange(0, f@.len() as int) =~= f@);
    assert(without_head(rest) == relative_path(full@, local_root@));
    while from < to && f[from] == '\\'
        invariant
            from <= to <= f@.len(),
            without_head(f@.subrange(from as int, to as int)) == without_head(rest),
        decreases to - from,
    {
        assert(f@.subrange(from as int, to as int).skip(1) =~= f@.subrange(from + 1, to as int));
        from = from + 1;
    }
    text_of(f.as_slice(), from, to)
}

} // verus!
