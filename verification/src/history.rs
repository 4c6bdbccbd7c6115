//! History parsing and filtering: decoding a history file's lines into
//! entries, ordering them by recency, deduplicating them by command,
//! and narrowing them with chained case-insensitive literal filters.

use vstd::prelude::*;

use crate::shell::{format_of, HistoryFormat, ShellType};
use crate::text::{all_digits, all_ws, contains_seq, digit_scan, digits_val, find_first,
    lower_char, lower_seq, space_scan, trim_quotes_seq, trim_seq};
use crate::text::{find_space, lemma_digit_scan_bounds, lemma_find_first_at, lemma_find_first_none,
    parse_u64, scan_digits, str_contains_ci, str_find, str_is_blank, str_trim, str_trim_quotes};
use crate::Error;

verus! {

/// One normalized history entry.
#[derive(Debug)]
pub struct HistoryEntry {
    /// The command text, as a single line.
    pub command: String,
    /// The Unix time the shell recorded, for formats that keep one.
    pub timestamp: Option<u64>,
    /// The raw source line the entry came from.
    pub original_line: String,
}

/// The mathematical image of a history entry.
pub struct EntryView {
    /// The command text.
    pub command: Seq<char>,
    /// The recorded Unix time, if any.
    pub timestamp: Option<u64>,
    /// The raw source line.
    pub original_line: Seq<char>,
}

impl View for HistoryEntry {
    type V = EntryView;

    open spec fn view(&self) -> EntryView {
        EntryView {
            command: self.command@,
            timestamp: self.timestamp,
            original_line: self.original_line@,
        }
    }
}

impl Clone for HistoryEntry {
    /// Cloning keeps every field.
    fn clone(&self) -> (r: Self)
        ensures
            r@ == self@,
    {
        HistoryEntry {
            command: self.command.clone(),
            timestamp: self.timestamp,
            original_line: self.original_line.clone(),
        }
    }
}

/// The entry views of a sequence of entries.
pub open spec fn views(s: Seq<HistoryEntry>) -> Seq<EntryView> {
    Seq::new(s.len(), |i: int| s[i]@)
}

/// The character sequences of a sequence of strings.
pub open spec fn str_views(s: Seq<String>) -> Seq<Seq<char>> {
    Seq::new(s.len(), |i: int| s[i]@)
}

/// Recency order: timestamped entries come before untimestamped ones,
/// and larger timestamps come first; ties leave entries interchangeable.
pub open spec fn entry_le(a: EntryView, b: EntryView) -> bool {
    match (a.timestamp, b.timestamp) {
        (Some(x), Some(y)) => x >= y,
        (Some(_), None) => true,
        (None, Some(_)) => false,
        (None, None) => true,
    }
}

/// Strict recency order.
pub open spec fn entry_lt(a: EntryView, b: EntryView) -> bool {
    !entry_le(b, a)
}

/// Every earlier entry is at or before every later one in recency order.
pub open spec fn sorted_le(s: Seq<EntryView>) -> bool {
    forall|i: int, j: int| 0 <= i < j < s.len() ==> entry_le(s[i], s[j])
}

/// Stable insertion of `x` into `s`: `x` goes before the first element
/// that does not strictly precede it.
pub open spec fn insert_ordered(x: EntryView, s: Seq<EntryView>) -> Seq<EntryView>
    decreases s.len(),
{
    if s.len() == 0 {
        seq![x]
    } else if entry_lt(s[0], x) {
        seq![s[0]] + insert_ordered(x, s.drop_first())
    } else {
        seq![x] + s
    }
}

/// Stable sort by recency: earlier entries go before later entries that
/// do not strictly precede them.
pub open spec fn sort_entries(s: Seq<EntryView>) -> Seq<EntryView>
    decreases s.len(),
{
    if s.len() == 0 {
        Seq::empty()
    } else {
        insert_ordered(s[0], sort_entries(s.drop_first()))
    }
}

/// Some entry of `s` has the command `cmd`.
pub open spec fn has_command(s: Seq<EntryView>, cmd: Seq<char>) -> bool {
    exists|k: int| 0 <= k < s.len() && s[k].command == cmd
}

/// The first `n` elements of `s` with every repeated command dropped:
/// an element is kept exactly when no kept element before it has the
/// same command.
pub open spec fn dedup_prefix(s: Seq<EntryView>, n: int) -> Seq<EntryView>
    decreases n,
{
    if n <= 0 {
        Seq::empty()
    } else {
        let acc = dedup_prefix(s, n - 1);
        if has_command(acc, s[n - 1].command) {
            acc
        } else {
            acc.push(s[n - 1])
        }
    }
}

/// `s` with every repeated command dropped, keeping first occurrences.
pub open spec fn dedup_entries(s: Seq<EntryView>) -> Seq<EntryView> {
    dedup_prefix(s, s.len() as int)
}

/// Strict recency order, decided on the entries themselves.
fn entry_lt_x(a: &HistoryEntry, b: &HistoryEntry) -> (r: bool)
    ensures
        r == entry_lt(a@, b@),
{
    match (a.timestamp, b.timestamp) {
        (Some(x), Some(y)) => x > y,
        (Some(_), None) => true,
        (None, Some(_)) => false,
        (None, None) => false,
    }
}

/// Inserting before the first element that does not strictly precede
/// `x` is what `insert_ordered` does.
proof fn lemma_insert_ordered_at(x: EntryView, s: Seq<EntryView>, j: int)
    requires
        0 <= j <= s.len(),
        forall|k: int| 0 <= k < j ==> entry_lt(s[k], x),
        j < s.len() ==> !entry_lt(s[j], x),
    ensures
        insert_ordered(x, s) == s.subrange(0, j) + seq![x] + s.subrange(j, s.len() as int),
    decreases j,
{
    if j == 0 {
        if s.len() == 0 {
            assert(insert_ordered(x, s) =~= s.subrange(0, 0) + seq![x] + s.subrange(
                0,
                s.len() as int,
            ));
        } else {
            assert(insert_ordered(x, s) =~= s.subrange(0, 0) + seq![x] + s.subrange(
                0,
                s.len() as int,
            ));
        }
    } else {
        let t = s.drop_first();
        assert(forall|k: int| 0 <= k < j - 1 ==> t[k] == s[k + 1] && entry_lt(t[k], x));
        lemma_insert_ordered_at(x, t, j - 1);
        assert(seq![s[0]] + (t.subrange(0, j - 1) + seq![x] + t.subrange(j - 1, t.len() as int))
            =~= s.subrange(0, j) + seq![x] + s.subrange(j, s.len() as int));
    }
}

/// Inserts `x` into an already sorted vector at its stable position.
fn insert_entry(sorted: &mut Vec<HistoryEntry>, x: HistoryEntry)
    ensures
        views(final(sorted)@) == insert_ordered(x@, views(old(sorted)@)),
{
    let ghost vs = views(old(sorted)@);
    let mut j: usize = 0;
    while j < sorted.len() && entry_lt_x(&sorted[j], &x)
        invariant
            sorted@ == old(sorted)@,
            vs == views(sorted@),
            j <= sorted@.len(),
            forall|k: int| 0 <= k < j ==> entry_lt(vs[k], x@),
        decreases sorted@.len() - j,
    {
        j += 1;
    }
    proof {
        lemma_insert_ordered_at(x@, vs, j as int);
    }
    sorted.insert(j, x);
    assert(views(sorted@) =~= vs.subrange(0, j as int) + seq![x@] + vs.subrange(
        j as int,
        vs.len() as int,
    ));
}

/// Sorts entries by recency, stably.
fn sort_history(entries: &Vec<HistoryEntry>) -> (r: Vec<HistoryEntry>)
    ensures
        views(r@) == sort_entries(views(entries@)),
{
    let ghost all = views(entries@);
    let mut sorted: Vec<HistoryEntry> = Vec::new();
    let mut i: usize = entries.len();
    while i > 0
        invariant
            i <= entries@.len(),
            all == views(entries@),
            views(sorted@) == sort_entries(all.skip(i as int)),
        decreases i,
    {
        i -= 1;
        let x = entries[i].clone();
        proof {
            assert(x@ == all[i as int]);
            assert(all.skip(i as int).drop_first() =~= all.skip(i as int + 1));
            assert(all.skip(i as int)[0] == all[i as int]);
            assert(sort_entries(all.skip(i as int)) == insert_ordered(
                x@,
                sort_entries(all.skip(i as int + 1)),
            ));
        }
        insert_entry(&mut sorted, x);
    }
    assert(all.skip(0) =~= all);
    sorted
}

/// Whether some entry of `v` carries the command `cmd`.
fn contains_command(v: &Vec<HistoryEntry>, cmd: &String) -> (r: bool)
    ensures
        r == has_command(views(v@), cmd@),
{
    let mut k: usize = 0;
    while k < v.len()
        invariant
            k <= v@.len(),
            forall|t: int| 0 <= t < k ==> views(v@)[t].command != cmd@,
        decreases v@.len() - k,
    {
        if v[k].command == *cmd {
            assert(views(v@)[k as int].command == cmd@);
            return true;
        }
        k += 1;
    }
    false
}

/// Drops every entry whose command already occurred, keeping the first
/// occurrence of each command.
fn dedup_history(entries: Vec<HistoryEntry>) -> (r: Vec<HistoryEntry>)
    ensures
        views(r@) == dedup_entries(views(entries@)),
{
    let ghost all = views(entries@);
    let mut out: Vec<HistoryEntry> = Vec::new();
    let mut i: usize = 0;
    while i < entries.len()
        invariant
            i <= entries@.len(),
            all == views(entries@),
            views(out@) == dedup_prefix(all, i as int),
        decreases entries@.len() - i,
    {
        if !contains_command(&out, &entries[i].command) {
            let ghost before = views(out@);
            out.push(entries[i].clone());
            assert(views(out@) =~= before.push(entries@[i as int]@));
        }
        i += 1;
    }
    out
}

/// The entry view of an optional entry.
pub open spec fn opt_view(r: Option<HistoryEntry>) -> Option<EntryView> {
    match r {
        Some(e) => Some(e@),
        None => None,
    }
}

/// A plain entry: the line itself is the command, untimestamped.
pub open spec fn plain_entry_of(s: Seq<char>) -> EntryView {
    EntryView { command: s, timestamp: None, original_line: s }
}

/// Splits a line of the shape `: <digits>:<digits>;<command>` into its
/// timestamp digits and its command, or nothing when the shape fails.
pub open spec fn zsh_split(s: Seq<char>) -> Option<(Seq<char>, Seq<char>)> {
    if s.len() >= 2 && s[0] == ':' && s[1] == ' ' {
        let i = digit_scan(s, 2);
        if i > 2 && i < s.len() && s[i] == ':' {
            let j = digit_scan(s, i + 1);
            if j > i + 1 && j < s.len() && s[j] == ';' {
                Some((s.subrange(2, i), s.subrange(j + 1, s.len() as int)))
            } else {
                None
            }
        } else {
            None
        }
    } else {
        None
    }
}

/// One non-blank line read as zsh extended history: a timestamped
/// command when the shape matches and the timestamp fits, nothing when
/// it matches with an oversized timestamp, and a plain fallback entry
/// otherwise.
pub open spec fn zsh_line_entry(s: Seq<char>) -> Option<EntryView> {
    match zsh_split(s) {
        Some((ds, cmd)) => if digits_val(ds) <= u64::MAX {
            Some(
                EntryView {
                    command: cmd,
                    timestamp: Some(digits_val(ds) as u64),
                    original_line: s,
                },
            )
        } else {
            None
        },
        None => Some(plain_entry_of(s)),
    }
}

/// One line read as fish history: the text between a `cmd:` marker and
/// a following `when:` marker, trimmed of whitespace and double quotes,
/// is the command; the digits after `when:` up to the next space are
/// the timestamp when they fit.  A line without both markers yields
/// nothing.
pub open spec fn fish_entry(s: Seq<char>) -> Option<EntryView> {
    let ci = find_first(s, "cmd:"@);
    if ci < 0 {
        None
    } else {
        let rest = s.subrange(ci + 4, s.len() as int);
        let wi = find_first(rest, "when:"@);
        if wi < 0 {
            None
        } else {
            let cmd = trim_quotes_seq(trim_seq(rest.subrange(0, wi)));
            let after = rest.subrange(wi + 5, rest.len() as int);
            let ds = after.subrange(0, space_scan(after, 0));
            let ts = if ds.len() > 0 && all_digits(ds) && digits_val(ds) <= u64::MAX {
                Some(digits_val(ds) as u64)
            } else {
                None
            };
            Some(EntryView { command: cmd, timestamp: ts, original_line: s })
        }
    }
}

/// One line of a history file, under a given format.  Blank lines
/// yield nothing.
pub open spec fn line_entry(s: Seq<char>, fmt: HistoryFormat) -> Option<EntryView> {
    if all_ws(s) {
        None
    } else {
        match fmt {
            HistoryFormat::Plain => Some(plain_entry_of(s)),
            HistoryFormat::ZshExtended => zsh_line_entry(s),
            HistoryFormat::Fish => fish_entry(s),
        }
    }
}

/// Reads one non-blank line as zsh extended history.
fn parse_zsh_line(line: &str) -> (r: Option<HistoryEntry>)
    ensures
        opt_view(r) == zsh_line_entry(line@),
{
    let n = line.unicode_len();
    if n >= 2 && line.get_char(0) == ':' && line.get_char(1) == ' ' {
        let i = scan_digits(line, 2);
        if i > 2 && i < n && line.get_char(i) == ':' {
            let j = scan_digits(line, i + 1);
            if j > i + 1 && j < n && line.get_char(j) == ';' {
                let ds = line.substring_char(2, i);
                let cmd = line.substring_char(j + 1, n);
                proof {
                    lemma_digit_scan_bounds(line@, 2);
                    assert(all_digits(ds@));
                }
                match parse_u64(ds) {
                    Some(v) => {
                        return Some(
                            HistoryEntry {
                                command: cmd.to_owned(),
                                timestamp: Some(v),
                                original_line: line.to_owned(),
                            },
                        );
                    },
                    None => {
                        return None;
                    },
                }
            }
        }
    }
    Some(
        HistoryEntry {
            command: line.to_owned(),
            timestamp: None,
            original_line: line.to_owned(),
        },
    )
}

/// Reads one line as fish history.
fn parse_fish_line(line: &str) -> (r: Option<HistoryEntry>)
    ensures
        opt_view(r) == fish_entry(line@),
{
    let n = line.unicode_len();
    match str_find(line, "cmd:") {
        None => {
            proof {
                lemma_find_first_none(line@, "cmd:"@);
            }
            None
        },
        Some(ci) => {
            proof {
                lemma_find_first_at(line@, "cmd:"@, ci as int);
                assert("cmd:"@.len() == 4) by {
                    reveal_strlit("cmd:");
                }
            }
            let rest = line.substring_char(ci + 4, n);
            match str_find(rest, "when:") {
                None => {
                    proof {
                        lemma_find_first_none(rest@, "when:"@);
                    }
                    None
                },
                Some(wi) => {
                    proof {
                        lemma_find_first_at(rest@, "when:"@, wi as int);
                        assert("when:"@.len() == 5) by {
                            reveal_strlit("when:");
                        }
                    }
                    let rl = rest.unicode_len();
                    let cmd_part = rest.substring_char(0, wi);
                    let cmd = str_trim_quotes(str_trim(cmd_part));
                    let after = rest.substring_char(wi + 5, rl);
                    let k = find_space(after);
                    let ds = after.substring_char(0, k);
                    let ts = parse_u64(ds);
                    Some(
                        HistoryEntry {
                            command: cmd.to_owned(),
                            timestamp: ts,
                            original_line: line.to_owned(),
                        },
                    )
                },
            }
        },
    }
}

/// Reads one line of a history file under a format: blank lines are
/// skipped, and each format decodes as its spec says.
fn parse_line(line: &str, format: HistoryFormat) -> (r: Option<HistoryEntry>)
    ensures
        opt_view(r) == line_entry(line@, format),
{
    if str_is_blank(line) {
        return None;
    }
    match format {
        HistoryFormat::Plain => Some(
            HistoryEntry {
                command: line.to_owned(),
                timestamp: None,
                original_line: line.to_owned(),
            },
        ),
        HistoryFormat::ZshExtended => parse_zsh_line(line),
        HistoryFormat::Fish => parse_fish_line(line),
    }
}

/// A pending continuation's trailing ` \` or ` \\` collapses into the
/// single space that precedes it.
pub open spec fn collapse_cont(p: Seq<char>) -> Seq<char> {
    if p.len() >= 2 && p[p.len() - 2] == ' ' && p[p.len() - 1] == '\\' {
        p.subrange(0, p.len() - 1)
    } else if p.len() >= 3 && p[p.len() - 3] == ' ' && p[p.len() - 2] == '\\' && p[p.len() - 1]
        == '\\' {
        p.subrange(0, p.len() - 2)
    } else {
        p
    }
}

/// Appends a continuation line to a pending command, joined by a
/// single space after collapsing a trailing backslash artifact.
pub open spec fn join_cont(p: Seq<char>, c: Seq<char>) -> Seq<char> {
    let q = collapse_cont(p);
    if q.len() > 0 && q[q.len() - 1] == ' ' {
        q + c
    } else {
        q + seq![' '] + c
    }
}

/// The entry a pending command finalizes into: none when it is blank.
pub open spec fn finalized(p: Option<(u64, Seq<char>, Seq<char>)>) -> Seq<EntryView> {
    match p {
        None => Seq::empty(),
        Some((t, c, o)) => if all_ws(c) {
            Seq::empty()
        } else {
            seq![EntryView { command: c, timestamp: Some(t), original_line: o }]
        },
    }
}

/// The entries of zsh-extended lines from index `i` on, with a pending
/// command carried in: a timestamped line finalizes the pending one
/// and starts anew, a non-matching line continues the pending one or
/// stands as a plain command, blank lines and oversized timestamps are
/// skipped, and the end of input finalizes what is pending.
pub open spec fn zsh_lines(
    lines: Seq<Seq<char>>,
    i: int,
    pending: Option<(u64, Seq<char>, Seq<char>)>,
) -> Seq<EntryView>
    decreases lines.len() - i,
{
    if i < 0 || i >= lines.len() {
        finalized(pending)
    } else {
        let s = lines[i];
        if all_ws(s) {
            zsh_lines(lines, i + 1, pending)
        } else {
            match zsh_split(s) {
                Some((ds, cmd)) => if digits_val(ds) <= u64::MAX {
                    finalized(pending) + zsh_lines(
                        lines,
                        i + 1,
                        Some((digits_val(ds) as u64, cmd, s)),
                    )
                } else {
                    zsh_lines(lines, i + 1, pending)
                },
                None => match pending {
                    Some((t, c, o)) => zsh_lines(lines, i + 1, Some((t, join_cont(c, s), o))),
                    None => seq![plain_entry_of(s)] + zsh_lines(lines, i + 1, None),
                },
            }
        }
    }
}

/// The entries of independently parsed lines from index `i` on.
pub open spec fn per_line(lines: Seq<Seq<char>>, i: int, fmt: HistoryFormat) -> Seq<EntryView>
    decreases lines.len() - i,
{
    if i < 0 || i >= lines.len() {
        Seq::empty()
    } else {
        let head = match line_entry(lines[i], fmt) {
            Some(e) => seq![e],
            None => Seq::empty(),
        };
        head + per_line(lines, i + 1, fmt)
    }
}

/// The entries of a whole history file, in file order, before sorting
/// and deduplication.
pub open spec fn raw_entries(lines: Seq<Seq<char>>, fmt: HistoryFormat) -> Seq<EntryView> {
    match fmt {
        HistoryFormat::ZshExtended => zsh_lines(lines, 0, None),
        _ => per_line(lines, 0, fmt),
    }
}

/// The history set of a file: its raw entries sorted by recency and
/// deduplicated by command, most recent occurrence kept.
pub open spec fn history_set_of(lines: Seq<Seq<char>>, fmt: HistoryFormat) -> Seq<EntryView> {
    dedup_entries(sort_entries(raw_entries(lines, fmt)))
}

/// The view of a pending continuation command.
pub open spec fn pending_view(p: Option<(u64, String, String)>) -> Option<
    (u64, Seq<char>, Seq<char>),
> {
    match p {
        None => None,
        Some((t, c, o)) => Some((t, c@, o@)),
    }
}

/// What a zsh-extended line begins: a new stamped command, a stamped
/// shape whose timestamp does not fit, or no stamp at all.
enum ZshHead {
    Stamped(u64, String),
    Oversized,
    Unstamped,
}

/// Scans the `: <digits>:<digits>;<command>` shape at the head of a
/// line.
fn zsh_head(line: &str) -> (r: ZshHead)
    ensures
        match r {
            ZshHead::Stamped(t, c) => zsh_split(line@) matches Some(p) && digits_val(p.0)
                <= u64::MAX && t == digits_val(p.0) && c@ == p.1,
            ZshHead::Oversized => zsh_split(line@) matches Some(p) && digits_val(p.0) > u64::MAX,
            ZshHead::Unstamped => zsh_split(line@) is None,
        },
{
    let n = line.unicode_len();
    if n >= 2 && line.get_char(0) == ':' && line.get_char(1) == ' ' {
        let i = scan_digits(line, 2);
        if i > 2 && i < n && line.get_char(i) == ':' {
            let j = scan_digits(line, i + 1);
            if j > i + 1 && j < n && line.get_char(j) == ';' {
                let ds = line.substring_char(2, i);
                let cmd = line.substring_char(j + 1, n);
                proof {
                    lemma_digit_scan_bounds(line@, 2);
                    assert(all_digits(ds@));
                }
                return match parse_u64(ds) {
                    Some(v) => ZshHead::Stamped(v, cmd.to_owned()),
                    None => ZshHead::Oversized,
                };
            }
        }
    }
    ZshHead::Unstamped
}

/// Joins a continuation line onto a pending command.
fn join_cont_x(p: &str, c: &str) -> (r: String)
    ensures
        r@ == join_cont(p@, c@),
{
    let n = p.unicode_len();
    let q: &str = if n >= 2 && p.get_char(n - 2) == ' ' && p.get_char(n - 1) == '\\' {
        p.substring_char(0, n - 1)
    } else if n >= 3 && p.get_char(n - 3) == ' ' && p.get_char(n - 2) == '\\' && p.get_char(n - 1)
        == '\\' {
        p.substring_char(0, n - 2)
    } else {
        p
    };
    assert(q@ == collapse_cont(p@));
    let ql = q.unicode_len();
    let mut out = q.to_owned();
    if !(ql > 0 && q.get_char(ql - 1) == ' ') {
        out.append(" ");
        proof {
            reveal_strlit(" ");
            assert(" "@ =~= seq![' ']);
        }
    }
    out.append(c);
    out
}

/// Pushes the entry a pending command finalizes into, if any.
fn flush_pending(out: &mut Vec<HistoryEntry>, p: Option<(u64, String, String)>)
    ensures
        views(final(out)@) == views(old(out)@) + finalized(pending_view(p)),
{
    match p {
        None => {
            assert(views(out@) =~= views(out@) + finalized(pending_view(None)));
        },
        Some((t, c, o)) => {
            if !str_is_blank(c.as_str()) {
                let ghost before = views(out@);
                let ghost e = EntryView { command: c@, timestamp: Some(t), original_line: o@ };
                out.push(HistoryEntry { command: c, timestamp: Some(t), original_line: o });
                assert(views(out@) =~= before + seq![e]);
            } else {
                assert(views(out@) =~= views(out@) + finalized(pending_view(Some((t, c, o)))));
            }
        },
    }
}

/// Parses zsh-extended history lines, joining continuation lines onto
/// their stamped commands.
fn parse_zsh_history(lines: &Vec<String>) -> (r: Vec<HistoryEntry>)
    ensures
        views(r@) == zsh_lines(str_views(lines@), 0, None),
{
    let ghost ls = str_views(lines@);
    let mut out: Vec<HistoryEntry> = Vec::new();
    let mut pending: Option<(u64, String, String)> = None;
    let mut i: usize = 0;
    while i < lines.len()
        invariant
            i <= lines@.len(),
            ls == str_views(lines@),
            zsh_lines(ls, 0, None) == views(out@) + zsh_lines(ls, i as int, pending_view(pending)),
        decreases lines@.len() - i,
    {
        let ghost pv = pending_view(pending);
        let line = &lines[i];
        if str_is_blank(line.as_str()) {
            assert(zsh_lines(ls, i as int, pv) == zsh_lines(ls, i + 1, pv));
        } else {
            match zsh_head(line.as_str()) {
                ZshHead::Stamped(t, c) => {
                    let ghost before = views(out@);
                    flush_pending(&mut out, pending);
                    pending = Some((t, c, line.clone()));
                    proof {
                        assert(zsh_lines(ls, i as int, pv) == finalized(pv) + zsh_lines(
                            ls,
                            i + 1,
                            pending_view(pending),
                        ));
                        assert(before + (finalized(pv) + zsh_lines(ls, i + 1, pending_view(pending)))
                            =~= (before + finalized(pv)) + zsh_lines(ls, i + 1, pending_view(pending)));
                    }
                },
                ZshHead::Oversized => {
                    assert(zsh_lines(ls, i as int, pv) == zsh_lines(ls, i + 1, pv));
                },
                ZshHead::Unstamped => {
                    pending = match pending {
                        Some((t, c, o)) => {
                            let joined = join_cont_x(c.as_str(), line.as_str());
                            Some((t, joined, o))
                        },
                        None => {
                            let ghost before = views(out@);
                            let ghost e = plain_entry_of(line@);
                            out.push(
                                HistoryEntry {
                                    command: line.clone(),
                                    timestamp: None,
                                    original_line: line.clone(),
                                },
                            );
                            proof {
                                assert(views(out@) =~= before + seq![e]);
                                assert(zsh_lines(ls, i as int, pv) == seq![e] + zsh_lines(
                                    ls,
                                    i + 1,
                                    pending_view(None),
                                ));
                                assert(before + (seq![e] + zsh_lines(ls, i + 1, pending_view(None)))
                                    =~= (before + seq![e]) + zsh_lines(ls, i + 1, pending_view(None)));
                            }
                            None
                        },
                    };
                },
            }
        }
        i += 1;
    }
    flush_pending(&mut out, pending);
    out
}

/// Parses lines that each stand alone under the given format.
fn parse_line_by_line(lines: &Vec<String>, format: HistoryFormat) -> (r: Vec<HistoryEntry>)
    ensures
        views(r@) == per_line(str_views(lines@), 0, format),
{
    let ghost ls = str_views(lines@);
    let mut out: Vec<HistoryEntry> = Vec::new();
    let mut i: usize = 0;
    while i < lines.len()
        invariant
            i <= lines@.len(),
            ls == str_views(lines@),
            per_line(ls, 0, format) == views(out@) + per_line(ls, i as int, format),
        decreases lines@.len() - i,
    {
        let ghost before = views(out@);
        match parse_line(lines[i].as_str(), format) {
            Some(e) => {
                let ghost ev = e@;
                out.push(e);
                proof {
                    assert(views(out@) =~= before + seq![ev]);
                    assert(per_line(ls, i as int, format) == seq![ev] + per_line(
                        ls,
                        i + 1,
                        format,
                    ));
                    assert(before + (seq![ev] + per_line(ls, i + 1, format)) =~= (before
                        + seq![ev]) + per_line(ls, i + 1, format));
                }
            },
            None => {
                assert(per_line(ls, i as int, format) == per_line(ls, i + 1, format));
            },
        }
        i += 1;
    }
    assert(views(out@) =~= views(out@) + per_line(ls, lines@.len() as int, format));
    out
}

/// Parses a whole history file's lines under a format, in file order.
pub fn parse_history_lines(lines: &Vec<String>, format: HistoryFormat) -> (r: Vec<HistoryEntry>)
    ensures
        views(r@) == raw_entries(str_views(lines@), format),
{
    match format {
        HistoryFormat::ZshExtended => parse_zsh_history(lines),
        HistoryFormat::Plain => parse_line_by_line(lines, format),
        HistoryFormat::Fish => parse_line_by_line(lines, format),
    }
}

/// A filter matches an entry when it occurs in the entry's command as
/// a substring, ignoring ASCII case.
pub open spec fn entry_matches(f: Seq<char>, e: EntryView) -> bool {
    contains_seq(lower_seq(e.command), lower_seq(f))
}

/// One filter applied to a set: an empty filter keeps everything.
pub open spec fn apply_one(s: Seq<EntryView>, f: Seq<char>) -> Seq<EntryView> {
    if f.len() == 0 {
        s
    } else {
        s.filter(|e: EntryView| entry_matches(f, e))
    }
}

/// Filters applied in order, each narrowing the previous result.
pub open spec fn apply_all(s: Seq<EntryView>, fs: Seq<Seq<char>>) -> Seq<EntryView>
    decreases fs.len(),
{
    if fs.len() == 0 {
        s
    } else {
        apply_all(apply_one(s, fs[0]), fs.drop_first())
    }
}

/// The filter engine's result: without filters, or with an empty first
/// filter, the whole set; otherwise every filter applied in order.
pub open spec fn filter_result(s: Seq<EntryView>, fs: Seq<Seq<char>>) -> Seq<EntryView> {
    if fs.len() == 0 || fs[0].len() == 0 {
        s
    } else {
        apply_all(s, fs)
    }
}

/// Filtering a one-element sequence keeps or drops that element.
proof fn lemma_filter_one(x: EntryView, pred: spec_fn(EntryView) -> bool)
    ensures
        seq![x].filter(pred) == if pred(x) {
            seq![x]
        } else {
            Seq::<EntryView>::empty()
        },
{
    reveal_with_fuel(Seq::filter, 2);
    assert(seq![x].drop_last() =~= Seq::<EntryView>::empty());
}

/// Clones a vector of entries.
fn clone_entries(v: &Vec<HistoryEntry>) -> (r: Vec<HistoryEntry>)
    ensures
        views(r@) == views(v@),
{
    let mut out: Vec<HistoryEntry> = Vec::new();
    let mut i: usize = 0;
    while i < v.len()
        invariant
            i <= v@.len(),
            views(out@) == views(v@).subrange(0, i as int),
        decreases v@.len() - i,
    {
        let ghost before = views(out@);
        out.push(v[i].clone());
        assert(views(out@) =~= before.push(v@[i as int]@));
        assert(views(v@).subrange(0, i + 1) =~= views(v@).subrange(0, i as int).push(
            v@[i as int]@,
        ));
        i += 1;
    }
    assert(views(v@).subrange(0, v@.len() as int) =~= views(v@));
    out
}

/// Keeps the entries a non-empty filter matches, in order.
fn filter_once(entries: &Vec<HistoryEntry>, f: &str) -> (r: Vec<HistoryEntry>)
    requires
        f@.len() > 0,
    ensures
        views(r@) == apply_one(views(entries@), f@),
{
    let ghost vs = views(entries@);
    let ghost pred = |e: EntryView| entry_matches(f@, e);
    let mut out: Vec<HistoryEntry> = Vec::new();
    let mut i: usize = 0;
    while i < entries.len()
        invariant
            i <= entries@.len(),
            vs == views(entries@),
            f@.len() > 0,
            pred == (|e: EntryView| entry_matches(f@, e)),
            views(out@) == vs.subrange(0, i as int).filter(pred),
        decreases entries@.len() - i,
    {
        let ghost before = views(out@);
        proof {
            assert(vs.subrange(0, i + 1) =~= vs.subrange(0, i as int) + seq![vs[i as int]]);
            Seq::filter_distributes_over_add(vs.subrange(0, i as int), seq![vs[i as int]], pred);
            lemma_filter_one(vs[i as int], pred);
        }
        if str_contains_ci(entries[i].command.as_str(), f) {
            out.push(entries[i].clone());
            proof {
                assert(pred(vs[i as int]));
                assert(views(out@) =~= before.push(vs[i as int]));
                assert(before.push(vs[i as int]) =~= before + seq![vs[i as int]]);
            }
        } else {
            assert(!pred(vs[i as int]));
            assert(before =~= before + Seq::<EntryView>::empty());
        }
        i += 1;
    }
    assert(vs.subrange(0, vs.len() as int) =~= vs);
    out
}

/// The normalized, recency-ordered, deduplicated history of one shell.
#[derive(Debug)]
pub struct HistoryManager {
    entries: Vec<HistoryEntry>,
    shell_type: ShellType,
}

impl View for HistoryManager {
    type V = Seq<EntryView>;

    closed spec fn view(&self) -> Seq<EntryView> {
        views(self.entries@)
    }
}

impl HistoryManager {
    /// Builds the history set from a file's lines: parse under the
    /// shell's format, sort by recency, deduplicate by command.
    pub fn new(lines: &Vec<String>, shell_type: ShellType) -> (r: HistoryManager)
        ensures
            r@ == history_set_of(str_views(lines@), format_of(shell_type)),
    {
        let format = shell_type.history_format();
        let raw = parse_history_lines(lines, format);
        let sorted = sort_history(&raw);
        let entries = dedup_history(sorted);
        HistoryManager { entries, shell_type }
    }

    /// Reads one line of a history file under a format.
    pub fn parse_history_line(line: &str, format: HistoryFormat) -> (r: Option<HistoryEntry>)
        ensures
            opt_view(r) == line_entry(line@, format),
    {
        parse_line(line, format)
    }

    /// The history set's entries, most recent first.
    pub fn entries(&self) -> (r: &Vec<HistoryEntry>)
        ensures
            views(r@) == self@,
    {
        &self.entries
    }

    /// Applies an ordered list of filters; an empty list or an empty
    /// first filter keeps the whole set, and empty later filters are
    /// skipped.  Filters are literal substrings, matched ignoring
    /// ASCII case, so this always succeeds.
    pub fn filter_multiple(&self, filters: &Vec<String>) -> (r: Result<Vec<HistoryEntry>, Error>)
        ensures
            r matches Ok(v) && views(v@) == filter_result(self@, str_views(filters@)),
    {
        let ghost fs = str_views(filters@);
        if filters.len() == 0 || filters[0].as_str().unicode_len() == 0 {
            return Ok(clone_entries(&self.entries));
        }
        let mut current = clone_entries(&self.entries);
        assert(fs.skip(0) =~= fs);
        let mut i: usize = 0;
        while i < filters.len()
            invariant
                i <= filters@.len(),
                fs == str_views(filters@),
                apply_all(self@, fs) == apply_all(views(current@), fs.skip(i as int)),
            decreases filters@.len() - i,
        {
            proof {
                assert(fs.skip(i as int).len() > 0);
                assert(fs.skip(i as int)[0] == fs[i as int]);
                assert(fs.skip(i as int).drop_first() =~= fs.skip(i + 1));
            }
            let f = filters[i].as_str();
            if f.unicode_len() > 0 {
                current = filter_once(&current, f);
            }
            i += 1;
        }
        assert(fs.skip(filters@.len() as int) =~= Seq::<Seq<char>>::empty());
        Ok(current)
    }

    /// Applies one or two filters: an empty second filter means only
    /// the first is applied.
    pub fn filter(&self, first_filter: &str, second_filter: &str) -> (r: Result<
        Vec<HistoryEntry>,
        Error,
    >)
        ensures
            r matches Ok(v) && views(v@) == filter_result(
                self@,
                if second_filter@.len() == 0 {
                    seq![first_filter@]
                } else {
                    seq![first_filter@, second_filter@]
                },
            ),
    {
        let mut fs: Vec<String> = Vec::new();
        fs.push(first_filter.to_owned());
        if second_filter.unicode_len() > 0 {
            fs.push(second_filter.to_owned());
            assert(str_views(fs@) =~= seq![first_filter@, second_filter@]);
        } else {
            assert(str_views(fs@) =~= seq![first_filter@]);
        }
        self.filter_multiple(&fs)
    }
}

/// Appending one more filter distributes as one more narrowing pass.
pub proof fn lemma_apply_all_push(s: Seq<EntryView>, fs: Seq<Seq<char>>, f: Seq<char>)
    ensures
        apply_all(s, fs.push(f)) == apply_one(apply_all(s, fs), f),
    decreases fs.len(),
{
    if fs.len() == 0 {
        assert(fs.push(f)[0] == f);
        assert(fs.push(f).drop_first() =~= Seq::<Seq<char>>::empty());
        assert(apply_all(s, fs.push(f)) == apply_all(apply_one(s, f), fs.push(f).drop_first()));
        assert(apply_all(apply_one(s, f), Seq::<Seq<char>>::empty()) == apply_one(s, f));
        assert(apply_all(s, fs) == s);
    } else {
        assert(fs.push(f)[0] == fs[0]);
        assert(fs.push(f).drop_first() =~= fs.drop_first().push(f));
        assert(apply_all(s, fs.push(f)) == apply_all(
            apply_one(s, fs[0]),
            fs.drop_first().push(f),
        ));
        lemma_apply_all_push(apply_one(s, fs[0]), fs.drop_first(), f);
        assert(apply_all(s, fs) == apply_all(apply_one(s, fs[0]), fs.drop_first()));
    }
}

/// An empty filter appended to a non-empty prefix changes nothing:
/// advancing into an empty dimension leaves the result view as it was.
pub proof fn lemma_filter_extend_empty(s: Seq<EntryView>, fs: Seq<Seq<char>>)
    requires
        fs.len() > 0,
    ensures
        filter_result(s, fs.push(Seq::<char>::empty())) == filter_result(s, fs),
{
    assert(fs.push(Seq::<char>::empty())[0] == fs[0]);
    if fs[0].len() != 0 {
        lemma_apply_all_push(s, fs, Seq::<char>::empty());
    }
}

/// The number of leading elements strictly preceding `x`.
spec fn ins_pos(x: EntryView, s: Seq<EntryView>) -> int
    decreases s.len(),
{
    if s.len() == 0 {
        0
    } else if entry_lt(s[0], x) {
        1 + ins_pos(x, s.drop_first())
    } else {
        0
    }
}

proof fn lemma_ins_pos(x: EntryView, s: Seq<EntryView>)
    ensures
        0 <= ins_pos(x, s) <= s.len(),
        forall|k: int| 0 <= k < ins_pos(x, s) ==> entry_lt(s[k], x),
        ins_pos(x, s) < s.len() ==> !entry_lt(s[ins_pos(x, s)], x),
    decreases s.len(),
{
    if s.len() > 0 && entry_lt(s[0], x) {
        lemma_ins_pos(x, s.drop_first());
        assert(forall|k: int| 1 <= k < ins_pos(x, s) ==> s[k] == s.drop_first()[k - 1]);
    }
}

/// Inserting into a sorted sequence keeps it sorted.
proof fn lemma_insert_ordered_sorted(x: EntryView, s: Seq<EntryView>)
    requires
        sorted_le(s),
    ensures
        sorted_le(insert_ordered(x, s)),
        insert_ordered(x, s).len() == s.len() + 1,
{
    lemma_ins_pos(x, s);
    let j = ins_pos(x, s);
    lemma_insert_ordered_at(x, s, j);
    let r = insert_ordered(x, s);
    assert(r =~= s.subrange(0, j) + seq![x] + s.subrange(j, s.len() as int));
    assert(forall|i: int| 0 <= i < j ==> r[i] == s[i]);
    assert(r[j] == x);
    assert(forall|i: int| j < i < r.len() ==> r[i] == s[i - 1]);
    assert forall|a: int, b: int| 0 <= a < b < r.len() implies entry_le(r[a], r[b]) by {
        if a == j {
            assert(!entry_lt(s[j], x));
            if b - 1 > j {
                assert(entry_le(s[j], s[b - 1]));
            }
        } else if b == j {
            assert(entry_lt(s[a], x));
        } else if a < j && j < b {
            assert(entry_le(s[a], s[b - 1]));
        }
    }
}

/// Insertion adds the inserted command and keeps the rest.
proof fn lemma_insert_ordered_commands(x: EntryView, s: Seq<EntryView>, c: Seq<char>)
    ensures
        has_command(insert_ordered(x, s), c) <==> (x.command == c || has_command(s, c)),
{
    lemma_ins_pos(x, s);
    let j = ins_pos(x, s);
    lemma_insert_ordered_at(x, s, j);
    let r = insert_ordered(x, s);
    assert(r =~= s.subrange(0, j) + seq![x] + s.subrange(j, s.len() as int));
    assert(forall|i: int| 0 <= i < j ==> r[i] == s[i]);
    assert(r[j] == x);
    assert(forall|i: int| j < i < r.len() ==> r[i] == s[i - 1]);
    if has_command(r, c) {
        let i = choose|i: int| 0 <= i < r.len() && r[i].command == c;
        if i < j {
            assert(s[i].command == c);
        } else if i > j {
            assert(s[i - 1].command == c);
        }
    }
    if x.command == c {
        assert(r[j].command == c);
    } else if has_command(s, c) {
        let i = choose|i: int| 0 <= i < s.len() && s[i].command == c;
        if i < j {
            assert(r[i].command == c);
        } else {
            assert(r[i + 1].command == c);
        }
    }
}

/// Sorting orders the entries by recency and keeps their number.
pub proof fn lemma_sort_entries_sorted(s: Seq<EntryView>)
    ensures
        sorted_le(sort_entries(s)),
        sort_entries(s).len() == s.len(),
    decreases s.len(),
{
    if s.len() > 0 {
        lemma_sort_entries_sorted(s.drop_first());
        lemma_insert_ordered_sorted(s[0], sort_entries(s.drop_first()));
    }
}

/// Sorting keeps exactly the commands that were there.
pub proof fn lemma_sort_entries_commands(s: Seq<EntryView>, c: Seq<char>)
    ensures
        has_command(sort_entries(s), c) <==> has_command(s, c),
    decreases s.len(),
{
    if s.len() > 0 {
        lemma_sort_entries_commands(s.drop_first(), c);
        lemma_insert_ordered_commands(s[0], sort_entries(s.drop_first()), c);
        if has_command(sort_entries(s), c) {
            if s[0].command == c {
                assert(has_command(s, c));
            } else {
                let i = choose|i: int|
                    0 <= i < s.drop_first().len() && s.drop_first()[i].command == c;
                assert(s[i + 1].command == c);
            }
        }
        if has_command(s, c) {
            let i = choose|i: int| 0 <= i < s.len() && s[i].command == c;
            if i > 0 {
                assert(s.drop_first()[i - 1].command == c);
            }
        }
    }
}

/// Deduplication leaves no command twice.
pub proof fn lemma_dedup_prefix_unique(s: Seq<EntryView>, n: int)
    requires
        0 <= n <= s.len(),
    ensures
        forall|i: int, j: int|
            0 <= i < j < dedup_prefix(s, n).len() ==> (#[trigger] dedup_prefix(s, n)[i]).command
                != (#[trigger] dedup_prefix(s, n)[j]).command,
    decreases n,
{
    if n > 0 {
        lemma_dedup_prefix_unique(s, n - 1);
        let acc = dedup_prefix(s, n - 1);
        let r = dedup_prefix(s, n);
        if !has_command(acc, s[n - 1].command) {
            assert(r == acc.push(s[n - 1]));
            assert(forall|i: int| 0 <= i < acc.len() ==> r[i] == acc[i]);
            assert forall|i: int, j: int| 0 <= i < j < r.len() implies r[i].command
                != r[j].command by {
                if j == acc.len() {
                    assert(!(acc[i].command == s[n - 1].command));
                }
            }
        }
    }
}

/// Deduplication keeps exactly the commands of its input prefix.
pub proof fn lemma_dedup_prefix_commands(s: Seq<EntryView>, n: int, c: Seq<char>)
    requires
        0 <= n <= s.len(),
    ensures
        has_command(dedup_prefix(s, n), c) <==> (exists|k: int| 0 <= k < n && s[k].command == c),
    decreases n,
{
    if n > 0 {
        lemma_dedup_prefix_commands(s, n - 1, c);
        let acc = dedup_prefix(s, n - 1);
        let r = dedup_prefix(s, n);
        if has_command(acc, s[n - 1].command) {
            assert(r == acc);
            if s[n - 1].command == c {
                assert(has_command(acc, c));
            }
            if has_command(r, c) {
                let k = choose|k: int| 0 <= k < n - 1 && s[k].command == c;
                assert(0 <= k < n && s[k].command == c);
            } else {
                assert(forall|k: int| 0 <= k < n ==> s[k].command != c);
            }
        } else {
            assert(r == acc.push(s[n - 1]));
            assert(forall|i: int| 0 <= i < acc.len() ==> r[i] == acc[i]);
            assert(r[acc.len() as int] == s[n - 1]);
            if has_command(r, c) {
                let i = choose|i: int| 0 <= i < r.len() && r[i].command == c;
                if i < acc.len() {
                    let k = choose|k: int| 0 <= k < n - 1 && s[k].command == c;
                    assert(0 <= k < n && s[k].command == c);
                } else {
                    assert(s[n - 1].command == c);
                }
            }
            if exists|k: int| 0 <= k < n && s[k].command == c {
                let k = choose|k: int| 0 <= k < n && s[k].command == c;
                if k < n - 1 {
                    let i = choose|i: int| 0 <= i < acc.len() && acc[i].command == c;
                    assert(r[i].command == c);
                } else {
                    assert(r[acc.len() as int].command == c);
                }
            }
        }
    }
}

/// Deduplication keeps the order it found: each kept entry is one of
/// the input's, and a sorted input stays sorted.
pub proof fn lemma_dedup_prefix_sorted(s: Seq<EntryView>, n: int)
    requires
        0 <= n <= s.len(),
        sorted_le(s),
    ensures
        sorted_le(dedup_prefix(s, n)),
        forall|i: int|
            0 <= i < dedup_prefix(s, n).len() ==> (exists|j: int|
                0 <= j < n && #[trigger] dedup_prefix(s, n)[i] == s[j]),
    decreases n,
{
    if n > 0 {
        lemma_dedup_prefix_sorted(s, n - 1);
        let acc = dedup_prefix(s, n - 1);
        let r = dedup_prefix(s, n);
        if !has_command(acc, s[n - 1].command) {
            assert(r == acc.push(s[n - 1]));
            assert(forall|i: int| 0 <= i < acc.len() ==> r[i] == acc[i]);
            assert(r[acc.len() as int] == s[n - 1]);
            assert forall|a: int, b: int| 0 <= a < b < r.len() implies entry_le(r[a], r[b]) by {
                if b == acc.len() {
                    let j = choose|j: int| 0 <= j < n - 1 && acc[a] == s[j];
                    assert(entry_le(s[j], s[n - 1]));
                }
            }
            assert forall|i: int| 0 <= i < r.len() implies (exists|j: int|
                0 <= j < n && #[trigger] dedup_prefix(s, n)[i] == s[j]) by {
                if i < acc.len() {
                    let j = choose|j: int| 0 <= j < n - 1 && acc[i] == s[j];
                    assert(0 <= j < n && r[i] == s[j]);
                } else {
                    assert(0 <= n - 1 < n && r[i] == s[n - 1]);
                }
            }
        } else {
            assert forall|i: int| 0 <= i < r.len() implies (exists|j: int|
                0 <= j < n && #[trigger] dedup_prefix(s, n)[i] == s[j]) by {
                let j = choose|j: int| 0 <= j < n - 1 && acc[i] == s[j];
                assert(0 <= j < n && r[i] == s[j]);
            }
        }
    }
}

/// Each kept entry is its command's first occurrence in the input:
/// after sorting by recency, the most recent duplicate wins.
pub proof fn lemma_dedup_first_occurrence(s: Seq<EntryView>, n: int, i: int)
    requires
        0 <= n <= s.len(),
        0 <= i < dedup_prefix(s, n).len(),
    ensures
        exists|j: int|
            0 <= j < n && #[trigger] dedup_prefix(s, n)[i] == s[j] && (forall|k: int|
                0 <= k < j ==> (#[trigger] s[k]).command != s[j].command),
    decreases n,
{
    if n > 0 {
        let acc = dedup_prefix(s, n - 1);
        let r = dedup_prefix(s, n);
        if has_command(acc, s[n - 1].command) {
            lemma_dedup_first_occurrence(s, n - 1, i);
            let j = choose|j: int|
                0 <= j < n - 1 && dedup_prefix(s, n - 1)[i] == s[j] && (forall|k: int|
                    0 <= k < j ==> (#[trigger] s[k]).command != s[j].command);
            assert(0 <= j < n && r[i] == s[j]);
        } else {
            assert(r == acc.push(s[n - 1]));
            if i < acc.len() {
                lemma_dedup_first_occurrence(s, n - 1, i);
                let j = choose|j: int|
                    0 <= j < n - 1 && dedup_prefix(s, n - 1)[i] == s[j] && (forall|k: int|
                        0 <= k < j ==> (#[trigger] s[k]).command != s[j].command);
                assert(r[i] == acc[i]);
                assert(0 <= j < n && r[i] == s[j]);
            } else {
                lemma_dedup_prefix_commands(s, n - 1, s[n - 1].command);
                assert(r[i] == s[n - 1]);
                assert(forall|k: int|
                    0 <= k < n - 1 ==> (#[trigger] s[k]).command != s[n - 1].command);
                assert(0 <= n - 1 < n && r[i] == s[n - 1]);
            }
        }
    }
}

/// Each entry of the history set is the earliest entry of the
/// recency-sorted raw list that carries its command: the most recent
/// duplicate wins.
pub proof fn lemma_history_set_most_recent(lines: Seq<Seq<char>>, fmt: HistoryFormat, i: int)
    requires
        0 <= i < history_set_of(lines, fmt).len(),
    ensures
        exists|j: int|
            0 <= j < sort_entries(raw_entries(lines, fmt)).len() && #[trigger] history_set_of(
                lines,
                fmt,
            )[i] == sort_entries(raw_entries(lines, fmt))[j] && (forall|k: int|
                0 <= k < j ==> (#[trigger] sort_entries(raw_entries(lines, fmt))[k]).command
                    != sort_entries(raw_entries(lines, fmt))[j].command),
{
    let sorted = sort_entries(raw_entries(lines, fmt));
    lemma_dedup_first_occurrence(sorted, sorted.len() as int, i);
}

/// Parsing is a function of the file's lines alone: the same lines
/// under the same format always yield the same history set.
pub proof fn lemma_history_set_deterministic(
    a: Seq<Seq<char>>,
    b: Seq<Seq<char>>,
    fmt: HistoryFormat,
)
    requires
        a == b,
    ensures
        history_set_of(a, fmt) == history_set_of(b, fmt),
{
}

/// A command occurs in the history set exactly when some raw entry of
/// the file carries it, and no command occurs twice.
pub proof fn lemma_history_set_dedup(lines: Seq<Seq<char>>, fmt: HistoryFormat, c: Seq<char>)
    ensures
        has_command(history_set_of(lines, fmt), c) <==> has_command(raw_entries(lines, fmt), c),
        forall|i: int, j: int|
            0 <= i < j < history_set_of(lines, fmt).len() ==> (#[trigger] history_set_of(
                lines,
                fmt,
            )[i]).command != (#[trigger] history_set_of(lines, fmt)[j]).command,
{
    let raw = raw_entries(lines, fmt);
    let sorted = sort_entries(raw);
    lemma_sort_entries_sorted(raw);
    lemma_sort_entries_commands(raw, c);
    lemma_dedup_prefix_unique(sorted, sorted.len() as int);
    lemma_dedup_prefix_commands(sorted, sorted.len() as int, c);
    if has_command(sorted, c) {
        let k = choose|k: int| 0 <= k < sorted.len() && sorted[k].command == c;
        assert(exists|k: int| 0 <= k < sorted.len() && sorted[k].command == c);
    }
    if exists|k: int| 0 <= k < sorted.len() && sorted[k].command == c {
        assert(has_command(sorted, c));
    }
}

/// The history set is ordered by recency: every timestamped entry
/// precedes every untimestamped one, and timestamps descend.
pub proof fn lemma_history_set_ordered(lines: Seq<Seq<char>>, fmt: HistoryFormat)
    ensures
        sorted_le(history_set_of(lines, fmt)),
        forall|i: int, j: int|
            0 <= i < j < history_set_of(lines, fmt).len() ==> entry_le(
                #[trigger] history_set_of(lines, fmt)[i],
                #[trigger] history_set_of(lines, fmt)[j],
            ),
{
    let raw = raw_entries(lines, fmt);
    lemma_sort_entries_sorted(raw);
    lemma_dedup_prefix_sorted(sort_entries(raw), sort_entries(raw).len() as int);
}

/// An element a filter pass keeps was already there and matches.
proof fn lemma_filter_subset(s: Seq<EntryView>, pred: spec_fn(EntryView) -> bool, e: EntryView)
    requires
        s.filter(pred).contains(e),
    ensures
        s.contains(e),
        pred(e),
    decreases s.len(),
{
    reveal_with_fuel(Seq::filter, 2);
    if s.len() > 0 {
        if s.drop_last().filter(pred).contains(e) {
            lemma_filter_subset(s.drop_last(), pred, e);
            let i = choose|i: int| 0 <= i < s.drop_last().len() && s.drop_last()[i] == e;
            assert(s[i] == e);
        } else {
            assert(e == s.last() && pred(e));
            assert(s[s.len() - 1] == e);
        }
    }
}

/// Narrowing monotonicity: extending the active prefix with one more
/// non-empty filter only removes entries, never adds one.
pub proof fn lemma_filter_monotone(
    s: Seq<EntryView>,
    fs: Seq<Seq<char>>,
    f: Seq<char>,
    e: EntryView,
)
    requires
        f.len() > 0,
        filter_result(s, fs.push(f)).contains(e),
    ensures
        filter_result(s, fs).contains(e),
{
    let pred = |x: EntryView| entry_matches(f, x);
    if fs.len() == 0 {
        assert(fs.push(f)[0] == f);
        assert(fs.push(f).drop_first() =~= Seq::<Seq<char>>::empty());
        assert(apply_all(s, fs.push(f)) == apply_all(apply_one(s, f), fs.push(f).drop_first()));
        assert(filter_result(s, fs.push(f)) == s.filter(pred));
        lemma_filter_subset(s, pred, e);
    } else if fs[0].len() == 0 {
        assert(fs.push(f)[0] == fs[0]);
    } else {
        assert(fs.push(f)[0] == fs[0]);
        lemma_apply_all_push(s, fs, f);
        assert(filter_result(s, fs.push(f)) == apply_one(apply_all(s, fs), f));
        lemma_filter_subset(apply_all(s, fs), pred, e);
    }
}

/// Case insensitivity: a filter matches exactly as its lower-cased
/// form does.
pub proof fn lemma_filter_case_insensitive(f: Seq<char>, e: EntryView)
    ensures
        entry_matches(f, e) == entry_matches(lower_seq(f), e),
{
    assert(lower_seq(lower_seq(f)) =~= lower_seq(f)) by {
        assert forall|i: int| 0 <= i < f.len() implies lower_char(lower_char(f[i])) == lower_char(
            f[i],
        ) by {
            lemma_lower_char_idempotent(f[i]);
        }
    }
}

/// Lower-casing a character twice is lower-casing it once.
proof fn lemma_lower_char_idempotent(c: char)
    ensures
        lower_char(lower_char(c)) == lower_char(c),
{
    if 'A' <= c && c <= 'Z' {
        let d = ((c as u32) + 32) as char;
        assert(d as u32 == (c as u32) + 32);
        assert(!('A' <= d && d <= 'Z'));
    }
}

} // verus!
