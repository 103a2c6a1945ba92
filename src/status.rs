use vstd::prelude::*;

verus! {

/// Whether `c` has the Unicode `White_Space` property.
pub open spec fn is_space_spec(c: char) -> bool {
    ('\u{9}' <= c && c <= '\u{d}') || c == ' ' || c == '\u{85}' || c == '\u{a0}'
        || c == '\u{1680}' || ('\u{2000}' <= c && c <= '\u{200a}') || c == '\u{2028}'
        || c == '\u{2029}' || c == '\u{202f}' || c == '\u{205f}' || c == '\u{3000}'
}

/// Executable form of `is_space_spec`.
pub fn is_space(c: char) -> (r: bool)
    ensures
        r == is_space_spec(c),
{
    ('\u{9}' <= c && c <= '\u{d}') || c == ' ' || c == '\u{85}' || c == '\u{a0}'
        || c == '\u{1680}' || ('\u{2000}' <= c && c <= '\u{200a}') || c == '\u{2028}'
        || c == '\u{2029}' || c == '\u{202f}' || c == '\u{205f}' || c == '\u{3000}'
}

/// The characters of `s`, in order.
pub fn chars_of(s: &str) -> (r: Vec<char>)
    ensures
        r@ == s@,
{
    broadcast use vstd::string::axiom_spec_iter;
    let mut r: Vec<char> = Vec::new();
    for c in it: s.chars()
        invariant
            it.seq() == s@,
            r@ == it.seq().take(it.index() as int),
    {
        r.push(c);
    }
    assert(r@ =~= s@);
    r
}

/// Index of the first `'\n'` at or after `i`, or `s.len()` where there is none.
pub open spec fn newline_from(s: Seq<char>, i: int) -> int
    decreases s.len() - i,
{
    if i >= s.len() || i < 0 {
        s.len() as int
    } else if s[i] == '\n' {
        i
    } else {
        newline_from(s, i + 1)
    }
}

proof fn lemma_newline_from_bounds(s: Seq<char>, i: int)
    requires
        0 <= i <= s.len(),
    ensures
        i <= newline_from(s, i) <= s.len(),
    decreases s.len() - i,
{
    if i < s.len() && s[i] != '\n' {
        lemma_newline_from_bounds(s, i + 1);
    }
}

/// The lines of `s` that start at or after `i`: `s` is cut at each `'\n'`, and a
/// newline at the very end opens no further line.
pub open spec fn lines_from(s: Seq<char>, i: int) -> Seq<Seq<char>>
    decreases s.len() + 1 - i via lines_from_decreases
{
    if i >= s.len() || i < 0 {
        Seq::empty()
    } else {
        let j = newline_from(s, i);
        seq![s.subrange(i, j)] + lines_from(s, j + 1)
    }
}

#[via_fn]
proof fn lines_from_decreases(s: Seq<char>, i: int) {
    if 0 <= i < s.len() {
        lemma_newline_from_bounds(s, i);
    }
}

/// The lines of a status report. A `'\r'` before a `'\n'` stays at the end of
/// its line: no reading below tells such a line from the same without it.
pub open spec fn status_lines(s: Seq<char>) -> Seq<Seq<char>> {
    lines_from(s, 0)
}

/// Index of the first whitespace character at or after `i`, or `s.len()`.
pub open spec fn token_end(s: Seq<char>, i: int) -> int
    decreases s.len() - i,
{
    if i >= s.len() || i < 0 {
        s.len() as int
    } else if is_space_spec(s[i]) {
        i
    } else {
        token_end(s, i + 1)
    }
}

proof fn lemma_token_end_bounds(s: Seq<char>, i: int)
    requires
        0 <= i <= s.len(),
    ensures
        i <= token_end(s, i) <= s.len(),
        i < s.len() && !is_space_spec(s[i]) ==> i < token_end(s, i),
    decreases s.len() - i,
{
    if i < s.len() && !is_space_spec(s[i]) {
        lemma_token_end_bounds(s, i + 1);
    }
}

/// The maximal runs of non-whitespace characters of `s` that start at or after `i`.
pub open spec fn tokens_from(s: Seq<char>, i: int) -> Seq<Seq<char>>
    decreases s.len() - i via tokens_from_decreases
{
    if i >= s.len() || i < 0 {
        Seq::empty()
    } else if is_space_spec(s[i]) {
        tokens_from(s, i + 1)
    } else {
        let j = token_end(s, i);
        seq![s.subrange(i, j)] + tokens_from(s, j)
    }
}

#[via_fn]
proof fn tokens_from_decreases(s: Seq<char>, i: int) {
    if 0 <= i < s.len() {
        lemma_token_end_bounds(s, i);
    }
}

/// The whitespace-separated words of `s`.
pub open spec fn tokens(s: Seq<char>) -> Seq<Seq<char>> {
    tokens_from(s, 0)
}

pub open spec fn is_digit_spec(c: char) -> bool {
    '0' <= c && c <= '9'
}

/// The number written by the decimal digits `d`.
pub open spec fn digits_value(d: Seq<char>) -> nat
    decreases d.len(),
{
    if d.len() == 0 {
        0
    } else {
        digits_value(d.drop_last()) * 10 + ((d.last() as u32) - ('0' as u32)) as nat
    }
}

/// `t` without a leading `'+'`.
pub open spec fn unsigned_digits(t: Seq<char>) -> Seq<char> {
    if t.len() > 0 && t[0] == '+' {
        t.drop_first()
    } else {
        t
    }
}

/// Reading an unsigned machine integer: an optional `'+'`, then one or more
/// decimal digits whose value fits in `usize`.
pub open spec fn usize_of(t: Seq<char>) -> Option<nat> {
    let d = unsigned_digits(t);
    if d.len() > 0 && (forall|k: int| 0 <= k < d.len() ==> is_digit_spec(#[trigger] d[k]))
        && digits_value(d) <= usize::MAX {
        Some(digits_value(d))
    } else {
        None
    }
}


/// Header line announcing the upstream branch.
pub open spec fn upstream_header() -> Seq<char> {
    "# branch.upstream "@
}

/// Header line giving the ahead and behind counts.
pub open spec fn ahead_behind_header() -> Seq<char> {
    "# branch.ab "@
}

pub open spec fn starts_with(line: Seq<char>, p: Seq<char>) -> bool {
    p.len() <= line.len() && line.subrange(0, p.len() as int) == p
}

/// A per-entry record: changed, renamed or copied, unmerged, or untracked.
pub open spec fn is_entry_record_spec(line: Seq<char>) -> bool {
    line.len() >= 2 && line[1] == ' ' && (line[0] == '1' || line[0] == '2' || line[0] == 'u'
        || line[0] == '?')
}

/// The value of a word written `+N`, where `N` reads as an unsigned integer.
pub open spec fn plus_value(tok: Seq<char>) -> Option<nat> {
    if tok.len() > 0 && tok[0] == '+' {
        usize_of(tok.drop_first())
    } else {
        None
    }
}

/// The ahead count after reading `toks` in order, starting from `prior`: the
/// last word that gives a value wins, and the others leave it as it was.
pub open spec fn last_ahead(toks: Seq<Seq<char>>, prior: nat) -> nat
    decreases toks.len(),
{
    if toks.len() == 0 {
        prior
    } else {
        let next = match plus_value(toks[0]) {
            Some(v) => v,
            None => prior,
        };
        last_ahead(toks.drop_first(), next)
    }
}

/// The ahead count after reading `lines` in order, starting from `prior`.
pub open spec fn ahead_after(lines: Seq<Seq<char>>, prior: nat) -> nat
    decreases lines.len(),
{
    if lines.len() == 0 {
        prior
    } else {
        let l = lines[0];
        let next = if starts_with(l, ahead_behind_header()) {
            last_ahead(tokens(l.skip(ahead_behind_header().len() as int)), prior)
        } else {
            prior
        };
        ahead_after(lines.drop_first(), next)
    }
}

/// How many of `lines` are per-entry records.
pub open spec fn record_count(lines: Seq<Seq<char>>) -> nat
    decreases lines.len(),
{
    if lines.len() == 0 {
        0
    } else {
        (if is_entry_record_spec(lines[0]) {
            1nat
        } else {
            0nat
        }) + record_count(lines.drop_first())
    }
}

/// Whether one of `lines` announces an upstream branch.
pub open spec fn upstream_named(lines: Seq<Seq<char>>) -> bool
    decreases lines.len(),
{
    lines.len() > 0 && (starts_with(lines[0], upstream_header()) || upstream_named(
        lines.drop_first(),
    ))
}

/// Uncommitted entries reported by the status text `s`.
pub open spec fn changes_in(s: Seq<char>) -> nat {
    record_count(status_lines(s))
}

/// Commits ahead of upstream reported by the status text `s`; 0 when none is given.
pub open spec fn ahead_in(s: Seq<char>) -> nat {
    ahead_after(status_lines(s), 0)
}

/// Whether the status text `s` reports an upstream branch.
pub open spec fn upstream_in(s: Seq<char>) -> bool {
    upstream_named(status_lines(s))
}

/// The characters `t[lo..hi]`.
pub fn slice_chars(t: &Vec<char>, lo: usize, hi: usize) -> (r: Vec<char>)
    requires
        lo <= hi <= t@.len(),
    ensures
        r@ == t@.subrange(lo as int, hi as int),
{
    let mut r: Vec<char> = Vec::new();
    let mut k: usize = lo;
    while k < hi
        invariant
            lo <= k <= hi <= t@.len(),
            r@ == t@.subrange(lo as int, k as int),
        decreases hi - k,
    {
        r.push(t[k]);
        k += 1;
        assert(r@ =~= t@.subrange(lo as int, k as int));
    }
    r
}

fn find_newline(t: &Vec<char>, i: usize) -> (r: usize)
    requires
        i <= t@.len(),
    ensures
        r == newline_from(t@, i as int),
        i <= r <= t@.len(),
{
    let mut j: usize = i;
    while j < t.len() && t[j] != '\n'
        invariant
            i <= j <= t@.len(),
            newline_from(t@, i as int) == newline_from(t@, j as int),
        decreases t@.len() - j,
    {
        j += 1;
    }
    j
}

fn find_token_end(t: &Vec<char>, i: usize) -> (r: usize)
    requires
        i <= t@.len(),
    ensures
        r == token_end(t@, i as int),
        i <= r <= t@.len(),
{
    let mut j: usize = i;
    while j < t.len() && !is_space(t[j])
        invariant
            i <= j <= t@.len(),
            token_end(t@, i as int) == token_end(t@, j as int),
        decreases t@.len() - j,
    {
        j += 1;
    }
    j
}

/// Whether `line` begins with `p`.
pub fn starts_with_chars(line: &Vec<char>, p: &Vec<char>) -> (r: bool)
    ensures
        r == starts_with(line@, p@),
{
    if p.len() > line.len() {
        return false;
    }
    let mut k: usize = 0;
    while k < p.len()
        invariant
            p@.len() <= line@.len(),
            k <= p@.len(),
            forall|m: int| 0 <= m < k ==> line@[m] == p@[m],
        decreases p@.len() - k,
    {
        if line[k] != p[k] {
            return false;
        }
        k += 1;
    }
    assert(line@.subrange(0, p@.len() as int) =~= p@);
    true
}

/// Whether `line` is a per-entry record.
pub fn is_entry_record(line: &Vec<char>) -> (r: bool)
    ensures
        r == is_entry_record_spec(line@),
{
    line.len() >= 2 && line[1] == ' ' && (line[0] == '1' || line[0] == '2' || line[0] == 'u'
        || line[0] == '?')
}


/// Reads `t` as an unsigned integer: an optional `'+'`, then decimal digits.
pub fn parse_usize(t: &Vec<char>) -> (r: Option<usize>)
    ensures
        usize_of(t@) == (match r {
            Some(v) => Some(v as nat),
            None => None::<nat>,
        }),
{
    let start: usize = if t.len() > 0 && t[0] == '+' {
        1
    } else {
        0
    };
    let d = slice_chars(t, start, t.len());
    assert(d@ =~= unsigned_digits(t@));
    if d.len() == 0 {
        return None;
    }
    let mut acc: usize = 0;
    let mut too_big = false;
    let mut k: usize = 0;
    while k < d.len()
        invariant
            d@ == unsigned_digits(t@),
            k <= d@.len(),
            forall|m: int| 0 <= m < k ==> is_digit_spec(#[trigger] d@[m]),
            !too_big ==> acc == digits_value(d@.take(k as int)),
            too_big ==> digits_value(d@.take(k as int)) > usize::MAX,
        decreases d@.len() - k,
    {
        let c = d[k];
        if !('0' <= c && c <= '9') {
            assert(!is_digit_spec(d@[k as int]));
            return None;
        }
        let v: usize = ((c as u32) - ('0' as u32)) as usize;
        assert(d@.take(k + 1).drop_last() =~= d@.take(k as int));
        let ghost prev = digits_value(d@.take(k as int));
        assert(digits_value(d@.take(k + 1)) == prev * 10 + v);
        if too_big {
            assert(prev * 10 + v >= prev) by (nonlinear_arith);
        } else {
            let q: usize = (usize::MAX - v) / 10;
            if acc > q {
                assert(acc * 10 + v > usize::MAX) by (nonlinear_arith)
                    requires
                        acc > q,
                        q == (usize::MAX - v) / 10,
                        v <= 9,
                ;
                too_big = true;
            } else {
                assert(acc * 10 + v <= usize::MAX) by (nonlinear_arith)
                    requires
                        acc <= q,
                        q == (usize::MAX - v) / 10,
                        v <= 9,
                ;
                acc = acc * 10 + v;
            }
        }
        k += 1;
    }
    assert(d@.take(d@.len() as int) =~= d@);
    if too_big {
        None
    } else {
        Some(acc)
    }
}

/// The value of a word written `+N`.
pub fn parse_plus(tok: &Vec<char>) -> (r: Option<usize>)
    ensures
        plus_value(tok@) == (match r {
            Some(v) => Some(v as nat),
            None => None::<nat>,
        }),
{
    if tok.len() > 0 && tok[0] == '+' {
        let rest = slice_chars(tok, 1, tok.len());
        assert(rest@ =~= tok@.drop_first());
        parse_usize(&rest)
    } else {
        None
    }
}

/// Reads the words of `s` in order, starting from `prior`, and returns the
/// value of the last `+N` word, or `prior` where none gives one.
pub fn last_ahead_in(s: &Vec<char>, prior: usize) -> (r: usize)
    ensures
        r == last_ahead(tokens(s@), prior as nat),
{
    let n = s.len();
    let mut i: usize = 0;
    let mut cur: usize = prior;
    while i < n
        invariant
            n == s@.len(),
            i <= n,
            last_ahead(tokens_from(s@, i as int), cur as nat) == last_ahead(
                tokens(s@),
                prior as nat,
            ),
        decreases n - i,
    {
        if is_space(s[i]) {
            i += 1;
        } else {
            let j = find_token_end(s, i);
            let tok = slice_chars(s, i, j);
            let ghost rest = tokens_from(s@, j as int);
            assert(tokens_from(s@, i as int) == seq![tok@] + rest);
            assert((seq![tok@] + rest).drop_first() =~= rest);
            assert((seq![tok@] + rest)[0] == tok@);
            match parse_plus(&tok) {
                Some(v) => {
                    cur = v;
                },
                None => {},
            }
            proof {
                lemma_token_end_bounds(s@, i as int);
            }
            i = j;
        }
    }
    cur
}


/// What one status report says: uncommitted entries, commits ahead of
/// upstream, and whether an upstream is configured.
pub fn tally_status(text: &Vec<char>) -> (r: (usize, usize, bool))
    ensures
        r.0 as nat == changes_in(text@),
        r.1 as nat == ahead_in(text@),
        r.2 == upstream_in(text@),
{
    let up_h = chars_of("# branch.upstream ");
    let ab_h = chars_of("# branch.ab ");
    let n = text.len();
    let mut i: usize = 0;
    let mut changes: usize = 0;
    let mut ahead: usize = 0;
    let mut upstream = false;
    while i < n
        invariant
            n == text@.len(),
            i <= n,
            up_h@ == upstream_header(),
            ab_h@ == ahead_behind_header(),
            changes <= i,
            changes + record_count(lines_from(text@, i as int)) == changes_in(text@),
            ahead_after(lines_from(text@, i as int), ahead as nat) == ahead_in(text@),
            (upstream || upstream_named(lines_from(text@, i as int))) == upstream_in(text@),
        decreases n - i,
    {
        let j = find_newline(text, i);
        let line = slice_chars(text, i, j);
        let ghost rest = lines_from(text@, j + 1);
        assert(lines_from(text@, i as int) == seq![line@] + rest);
        assert((seq![line@] + rest).drop_first() =~= rest);
        assert((seq![line@] + rest)[0] == line@);
        if starts_with_chars(&line, &up_h) {
            upstream = true;
        }
        if starts_with_chars(&line, &ab_h) {
            let words = slice_chars(&line, ab_h.len(), line.len());
            assert(words@ =~= line@.skip(ahead_behind_header().len() as int));
            ahead = last_ahead_in(&words, ahead);
        }
        if is_entry_record(&line) {
            changes += 1;
        }
        if j < n {
            i = j + 1;
        } else {
            assert(lines_from(text@, j + 1) =~= lines_from(text@, n as int));
            i = n;
        }
    }
    (changes, ahead, upstream)
}

/// The state of one repository's working tree.
pub struct RepoStatus {
    pub path: String,
    pub is_dirty: bool,
    pub uncommitted_changes: usize,
    pub unpushed_commits: usize,
    pub has_upstream: bool,
}

impl RepoStatus {
    /// A repository is dirty exactly when it has uncommitted entries or unpushed commits.
    pub open spec fn wf(&self) -> bool {
        self.is_dirty == (self.uncommitted_changes > 0 || self.unpushed_commits > 0)
    }

    /// The record of a repository, at `path`, read from the status text `s`.
    pub open spec fn reads(&self, path: Seq<char>, s: Seq<char>) -> bool {
        &&& self.path@ == path
        &&& self.uncommitted_changes as nat == changes_in(s)
        &&& self.unpushed_commits as nat == ahead_in(s)
        &&& self.has_upstream == upstream_in(s)
        &&& self.wf()
    }

    /// The record of a repository, at `path`, whose status could not be queried.
    pub open spec fn is_unqueried(&self, path: Seq<char>) -> bool {
        &&& self.path@ == path
        &&& !self.is_dirty
        &&& self.uncommitted_changes == 0
        &&& self.unpushed_commits == 0
        &&& !self.has_upstream
    }
}

/// The record of the repository at `path` whose status query printed `text`.
pub fn parse_status(path: String, text: &str) -> (r: RepoStatus)
    ensures
        r.reads(path@, text@),
{
    let chars = chars_of(text);
    let (uncommitted_changes, unpushed_commits, has_upstream) = tally_status(&chars);
    RepoStatus {
        path,
        is_dirty: uncommitted_changes > 0 || unpushed_commits > 0,
        uncommitted_changes,
        unpushed_commits,
        has_upstream,
    }
}

/// The record of the repository at `path` whose status query could not be run.
pub fn unqueried_status(path: String) -> (r: RepoStatus)
    ensures
        r.is_unqueried(path@),
        r.wf(),
{
    RepoStatus {
        path,
        is_dirty: false,
        uncommitted_changes: 0,
        unpushed_commits: 0,
        has_upstream: false,
    }
}

/// Text decoded from bytes, each ill-formed sequence replaced by U+FFFD.
pub uninterp spec fn lossy_text(b: Seq<u8>) -> Seq<char>;

/// Relies on `String::from_utf8_lossy`: the text depends on the bytes alone,
/// and no bytes give no text.
#[verifier::external_body]
fn decode_lossy(b: &Vec<u8>) -> (r: String)
    ensures
        r@ == lossy_text(b@),
        b@.len() == 0 ==> r@.len() == 0,
{
    String::from_utf8_lossy(b).into_owned()
}

/// The record of the repository at `path` whose status query wrote `stdout`.
pub fn status_from_output(path: String, stdout: &Vec<u8>) -> (r: RepoStatus)
    ensures
        r.reads(path@, lossy_text(stdout@)),
{
    let text = decode_lossy(stdout);
    parse_status(path, text.as_str())
}

/// The record of the repository at `path`, from what its status query gave:
/// the bytes it wrote, or nothing where it could not be run.
pub fn repo_status(path: String, output: Option<Vec<u8>>) -> (r: RepoStatus)
    ensures
        r.wf(),
        match output {
            Some(b) => r.reads(path@, lossy_text(b@)),
            None => r.is_unqueried(path@),
        },
{
    match output {
        Some(b) => status_from_output(path, &b),
        None => unqueried_status(path),
    }
}


proof fn lemma_ahead_after_concat(a: Seq<Seq<char>>, b: Seq<Seq<char>>, p: nat)
    ensures
        ahead_after(a + b, p) == ahead_after(b, ahead_after(a, p)),
    decreases a.len(),
{
    if a.len() == 0 {
        assert(a + b =~= b);
    } else {
        assert((a + b).drop_first() =~= a.drop_first() + b);
        assert((a + b)[0] == a[0]);
        let l = a[0];
        let next = if starts_with(l, ahead_behind_header()) {
            last_ahead(tokens(l.skip(ahead_behind_header().len() as int)), p)
        } else {
            p
        };
        lemma_ahead_after_concat(a.drop_first(), b, next);
    }
}

proof fn lemma_last_ahead_concat(a: Seq<Seq<char>>, b: Seq<Seq<char>>, p: nat)
    ensures
        last_ahead(a + b, p) == last_ahead(b, last_ahead(a, p)),
    decreases a.len(),
{
    if a.len() == 0 {
        assert(a + b =~= b);
    } else {
        assert((a + b).drop_first() =~= a.drop_first() + b);
        assert((a + b)[0] == a[0]);
        let next = match plus_value(a[0]) {
            Some(v) => v,
            None => p,
        };
        lemma_last_ahead_concat(a.drop_first(), b, next);
    }
}

proof fn lemma_no_plus_words(ws: Seq<Seq<char>>, p: nat)
    requires
        forall|k: int| 0 <= k < ws.len() ==> plus_value(#[trigger] ws[k]) is None,
    ensures
        last_ahead(ws, p) == p,
    decreases ws.len(),
{
    if ws.len() > 0 {
        assert(plus_value(ws[0]) is None);
        lemma_no_plus_words(ws.drop_first(), p);
    }
}

proof fn lemma_quiet_lines(ls: Seq<Seq<char>>, p: nat)
    requires
        forall|k: int|
            0 <= k < ls.len() ==> !starts_with(#[trigger] ls[k], ahead_behind_header()),
    ensures
        ahead_after(ls, p) == p,
    decreases ls.len(),
{
    if ls.len() > 0 {
        assert(!starts_with(ls[0], ahead_behind_header()));
        lemma_quiet_lines(ls.drop_first(), p);
    }
}

proof fn lemma_plain_lines(ls: Seq<Seq<char>>)
    requires
        forall|k: int|
            0 <= k < ls.len() ==> !starts_with(#[trigger] ls[k], upstream_header())
                && !is_entry_record_spec(ls[k]),
    ensures
        record_count(ls) == 0,
        !upstream_named(ls),
    decreases ls.len(),
{
    if ls.len() > 0 {
        assert(!starts_with(ls[0], upstream_header()) && !is_entry_record_spec(ls[0]));
        lemma_plain_lines(ls.drop_first());
    }
}

/// A report in which no line is an upstream header, an ahead-behind header or
/// an entry record gives no uncommitted entries, no unpushed commits, no
/// upstream, and a clean record.
pub proof fn lemma_quiet_report(s: Seq<char>)
    requires
        forall|k: int|
            0 <= k < status_lines(s).len() ==> !starts_with(
                #[trigger] status_lines(s)[k],
                upstream_header(),
            ) && !starts_with(status_lines(s)[k], ahead_behind_header())
                && !is_entry_record_spec(status_lines(s)[k]),
    ensures
        changes_in(s) == 0,
        ahead_in(s) == 0,
        !upstream_in(s),
        forall|r: RepoStatus, path: Seq<char>| #[trigger] r.reads(path, s) ==> !r.is_dirty,
{
    lemma_quiet_lines(status_lines(s), 0);
    lemma_plain_lines(status_lines(s));
}

/// A report with no ahead-behind header has no unpushed commits, so its
/// record is dirty exactly when it has uncommitted entries.
pub proof fn lemma_no_ahead_header(s: Seq<char>)
    requires
        forall|k: int|
            0 <= k < status_lines(s).len() ==> !starts_with(
                #[trigger] status_lines(s)[k],
                ahead_behind_header(),
            ),
    ensures
        ahead_in(s) == 0,
        forall|r: RepoStatus, path: Seq<char>| #[trigger]
            r.reads(path, s) ==> (r.is_dirty <==> changes_in(s) > 0),
{
    lemma_quiet_lines(status_lines(s), 0);
}

/// The unpushed count is the value of the last `+N` word of the last
/// ahead-behind header, whatever else the report holds; where it is not 0 the
/// record is dirty.
pub proof fn lemma_last_ahead_header_wins(s: Seq<char>, k: int, j: int, n: nat)
    requires
        0 <= k < status_lines(s).len(),
        starts_with(status_lines(s)[k], ahead_behind_header()),
        0 <= j < tokens(status_lines(s)[k].skip(ahead_behind_header().len() as int)).len(),
        plus_value(tokens(status_lines(s)[k].skip(ahead_behind_header().len() as int))[j])
            == Some(n),
        forall|m: int|
            j < m < tokens(status_lines(s)[k].skip(ahead_behind_header().len() as int)).len()
                ==> plus_value(
                #[trigger] tokens(status_lines(s)[k].skip(ahead_behind_header().len() as int))[m],
            ) is None,
        forall|m: int|
            k < m < status_lines(s).len() ==> !starts_with(
                #[trigger] status_lines(s)[m],
                ahead_behind_header(),
            ),
    ensures
        ahead_in(s) == n,
        forall|r: RepoStatus, path: Seq<char>| #[trigger] r.reads(path, s) && n > 0 ==> r.is_dirty,
{
    let ls = status_lines(s);
    let l = ls[k];
    let ws = tokens(l.skip(ahead_behind_header().len() as int));
    let before = ls.take(k);
    let after = ls.skip(k + 1);
    assert(ls =~= before + (seq![l] + after));
    lemma_ahead_after_concat(before, seq![l] + after, 0);
    let p = ahead_after(before, 0);
    assert((seq![l] + after).drop_first() =~= after);
    assert((seq![l] + after)[0] == l);
    assert(ahead_after(seq![l] + after, p) == ahead_after(after, last_ahead(ws, p)));
    assert(ws =~= ws.take(j) + (seq![ws[j]] + ws.skip(j + 1)));
    lemma_last_ahead_concat(ws.take(j), seq![ws[j]] + ws.skip(j + 1), p);
    let q = last_ahead(ws.take(j), p);
    assert((seq![ws[j]] + ws.skip(j + 1)).drop_first() =~= ws.skip(j + 1));
    assert((seq![ws[j]] + ws.skip(j + 1))[0] == ws[j]);
    assert forall|m: int| 0 <= m < ws.skip(j + 1).len() implies plus_value(
        #[trigger] ws.skip(j + 1)[m],
    ) is None by {
        assert(ws.skip(j + 1)[m] == ws[j + 1 + m]);
    }
    lemma_no_plus_words(ws.skip(j + 1), n);
    assert(last_ahead(ws, p) == n);
    assert forall|m: int| 0 <= m < after.len() implies !starts_with(
        #[trigger] after[m],
        ahead_behind_header(),
    ) by {
        assert(after[m] == ls[k + 1 + m]);
    }
    lemma_quiet_lines(after, n);
}

} // verus!
