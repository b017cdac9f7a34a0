//! Recognition of the control-channel lines that the client acts on: the
//! server's keep-alive challenge and a peer's transfer announcement.
use vstd::prelude::*;

verus! {

pub open spec fn is_digit(b: u8) -> bool {
    48 <= b <= 57
}

/// The first index at or after `i` that does not hold a decimal digit.
pub open spec fn run_end(s: Seq<u8>, i: int) -> int
    decreases s.len() - i,
{
    if 0 <= i < s.len() && is_digit(s[i]) {
        run_end(s, i + 1)
    } else {
        i
    }
}

/// The number written by a string of decimal digits.
pub open spec fn digits_value(s: Seq<u8>) -> nat
    decreases s.len(),
{
    if s.len() == 0 {
        0
    } else {
        digits_value(s.drop_last()) * 10 + (s.last() - 48) as nat
    }
}

/// `s` holds decimal digits only.
pub open spec fn all_digits(s: Seq<u8>) -> bool {
    forall|i: int| 0 <= i < s.len() ==> is_digit(#[trigger] s[i])
}

pub proof fn lemma_run_end_bounds(s: Seq<u8>, i: int)
    requires
        0 <= i <= s.len(),
    ensures
        i <= run_end(s, i) <= s.len(),
        all_digits(s.subrange(i, run_end(s, i))),
        run_end(s, i) < s.len() ==> !is_digit(s[run_end(s, i)]),
    decreases s.len() - i,
{
    if i < s.len() && is_digit(s[i]) {
        lemma_run_end_bounds(s, i + 1);
        let e = run_end(s, i);
        assert forall|k: int| 0 <= k < e - i implies is_digit(#[trigger] s.subrange(i, e)[k]) by {
            if k > 0 {
                assert(s.subrange(i, e)[k] == s.subrange(i + 1, e)[k - 1]);
            }
        }
    }
}

pub const SPACE: u8 = 32;

pub const QUOTE: u8 = 34;

/// At `p` stand a space and three runs of digits separated by single spaces:
/// the address, port and size fields that close an announcement.
pub open spec fn tail_at(b: Seq<u8>, p: int) -> bool {
    let e1 = run_end(b, p + 1);
    let e2 = run_end(b, e1 + 1);
    let e3 = run_end(b, e2 + 1);
    &&& 0 <= p < b.len()
    &&& b[p] == SPACE
    &&& p + 1 < e1 < b.len()
    &&& b[e1] == SPACE
    &&& e1 + 1 < e2 < b.len()
    &&& b[e2] == SPACE
    &&& e2 + 1 < e3
}

/// The largest `p < n` at which the numeric fields stand, or -1.
pub open spec fn last_tail_below(b: Seq<u8>, n: int) -> int
    decreases n,
{
    if n <= 0 {
        -1
    } else if tail_at(b, n - 1) {
        n - 1
    } else {
        last_tail_below(b, n - 1)
    }
}

/// Where the numeric fields of the text after the marker begin: the last
/// place where they can stand, so that the file name may itself hold spaces
/// and digits.
pub open spec fn fields_start(b: Seq<u8>) -> int {
    last_tail_below(b, b.len() as int)
}

/// The announced file name: what stands between the optional opening quote
/// and the numeric fields, less one stray closing quote.
pub open spec fn name_in(b: Seq<u8>) -> Seq<u8> {
    let q: int = if b.len() > 0 && b[0] == QUOTE { 1 } else { 0 };
    let raw = b.subrange(q, fields_start(b));
    if raw.len() > 0 && raw.last() == QUOTE {
        raw.drop_last()
    } else {
        raw
    }
}

/// The three numbers that close an announcement: address, port, size.
pub open spec fn fields_in(b: Seq<u8>) -> (nat, nat, nat) {
    let p = fields_start(b);
    let e1 = run_end(b, p + 1);
    let e2 = run_end(b, e1 + 1);
    let e3 = run_end(b, e2 + 1);
    (
        digits_value(b.subrange(p + 1, e1)),
        digits_value(b.subrange(e1 + 1, e2)),
        digits_value(b.subrange(e2 + 1, e3)),
    )
}

/// The marker that opens an announcement: `DCC SEND `.
pub open spec fn marker() -> Seq<u8> {
    seq![68u8, 67, 67, 32, 83, 69, 78, 68, 32]
}

pub open spec fn marker_at(s: Seq<u8>, i: int) -> bool {
    0 <= i && i + 9 <= s.len() && s.subrange(i, i + 9) == marker()
}

/// The first place at or after `i` where the marker stands, or -1.
pub open spec fn marker_from(s: Seq<u8>, i: int) -> int
    decreases s.len() - i,
{
    if i < 0 || i + 9 > s.len() {
        -1
    } else if marker_at(s, i) {
        i
    } else {
        marker_from(s, i + 1)
    }
}

/// What follows the first marker of the line.
pub open spec fn after_marker(s: Seq<u8>) -> Seq<u8> {
    s.skip(marker_from(s, 0) + 9)
}

/// The line holds a marker anywhere, followed later by the numeric fields.
pub open spec fn is_announcement(s: Seq<u8>) -> bool {
    marker_from(s, 0) >= 0 && fields_start(after_marker(s)) >= 0
}

/// An announcement whose numbers fit their fields: a 32-bit address, a
/// 16-bit port and a 64-bit size.
pub open spec fn announcement_fits(s: Seq<u8>) -> bool {
    let (host, port, size) = fields_in(after_marker(s));
    &&& host <= u32::MAX
    &&& port <= u16::MAX
    &&& size <= u64::MAX
}

/// The keep-alive directive with its separator: `PING :`.
pub open spec fn ping_word() -> Seq<u8> {
    seq![80u8, 73, 78, 71, 32, 58]
}

/// The reply directive with its separator: `PONG :`.
pub open spec fn pong_word() -> Seq<u8> {
    seq![80u8, 79, 78, 71, 32, 58]
}

pub const CR: u8 = 13;

pub const LF: u8 = 10;

/// A keep-alive challenge: the line opens with the directive and a digit.
pub open spec fn is_keep_alive(s: Seq<u8>) -> bool {
    s.len() > 6 && s.take(6) == ping_word() && is_digit(s[6])
}

/// The line without its terminator (a line feed, optionally preceded by a
/// carriage return).
pub open spec fn line_body(s: Seq<u8>) -> Seq<u8> {
    let a = if s.len() > 0 && s.last() == LF {
        s.drop_last()
    } else {
        s
    };
    if a.len() > 0 && a.last() == CR {
        a.drop_last()
    } else {
        a
    }
}

/// The challenge's token: what follows the directive, up to the terminator.
pub open spec fn keep_alive_token(s: Seq<u8>) -> Seq<u8> {
    line_body(s).skip(6)
}

/// One peer's offer of a transfer: where to connect and how much to expect.
pub struct TransferAnnouncement {
    pub file_name: Vec<u8>,
    pub host: u32,
    pub port: u16,
    pub size: u64,
}

impl TransferAnnouncement {
    /// The announced address as four octets, most significant first (the
    /// number is in network byte order).
    pub fn octets(&self) -> (r: (u8, u8, u8, u8))
        ensures
            r.0 as int == self.host / 0x100_0000,
            r.1 as int == (self.host / 0x1_0000) % 0x100,
            r.2 as int == (self.host / 0x100) % 0x100,
            r.3 as int == self.host % 0x100,
    {
        let h = self.host;
        ((h / 0x100_0000) as u8, ((h / 0x1_0000) % 0x100) as u8, ((h / 0x100) % 0x100) as u8, (h
            % 0x100) as u8)
    }
}

/// What a control-channel line asks of the client.
pub enum Message {
    /// Unrelated traffic.
    Other,
    /// A keep-alive challenge with its token.
    KeepAlive { token: Vec<u8> },
    /// A transfer announcement.
    Announcement(TransferAnnouncement),
    /// A line of announcement shape whose numbers do not fit their fields.
    Malformed,
}

/// The announcement that line `s` carries, field by field.
pub open spec fn announces(s: Seq<u8>, a: TransferAnnouncement) -> bool {
    let (host, port, size) = fields_in(after_marker(s));
    &&& a.file_name@ == name_in(after_marker(s))
    &&& a.host as nat == host
    &&& a.port as nat == port
    &&& a.size as nat == size
}

/// What `parse_line` makes of line `s`.
pub open spec fn classifies(s: Seq<u8>, m: Message) -> bool {
    match m {
        Message::Other => !is_keep_alive(s) && !is_announcement(s),
        Message::KeepAlive { token } => is_keep_alive(s) && token@ == keep_alive_token(s),
        Message::Announcement(a) => !is_keep_alive(s) && is_announcement(s)
            && announcement_fits(s) && announces(s, a),
        Message::Malformed => !is_keep_alive(s) && is_announcement(s) && !announcement_fits(s),
    }
}

proof fn lemma_digits_prefix(s: Seq<u8>, k: int)
    requires
        0 <= k <= s.len(),
    ensures
        digits_value(s.take(k)) <= digits_value(s),
    decreases s.len(),
{
    if k == s.len() {
        assert(s.take(k) =~= s);
    } else {
        assert(s.drop_last().take(k) =~= s.take(k));
        lemma_digits_prefix(s.drop_last(), k);
    }
}

proof fn lemma_marker_from(s: Seq<u8>, i: int)
    ensures
        marker_from(s, i) >= 0 ==> marker_at(s, marker_from(s, i)),
    decreases s.len() - i,
{
    if !(i < 0 || i + 9 > s.len()) && !marker_at(s, i) {
        lemma_marker_from(s, i + 1);
    }
}

proof fn lemma_last_tail(b: Seq<u8>, n: int)
    requires
        n >= 0,
    ensures
        last_tail_below(b, n) >= 0 ==> tail_at(b, last_tail_below(b, n)),
        last_tail_below(b, n) < n,
    decreases n,
{
    if n > 0 && !tail_at(b, n - 1) {
        lemma_last_tail(b, n - 1);
    }
}

/// `n` written in decimal, without leading zeros.
pub open spec fn decimal(n: nat) -> Seq<u8>
    decreases n,
{
    if n < 10 {
        seq![(n + 48) as u8]
    } else {
        decimal(n / 10).push((n % 10 + 48) as u8)
    }
}

proof fn lemma_decimal(n: nat)
    ensures
        decimal(n).len() > 0,
        all_digits(decimal(n)),
        digits_value(decimal(n)) == n,
    decreases n,
{
    if n >= 10 {
        lemma_decimal(n / 10);
        let d = decimal(n);
        assert(d.drop_last() =~= decimal(n / 10));
        assert(n == (n / 10) * 10 + n % 10);
        assert((d.last() - 48) as nat == n % 10);
        assert(digits_value(d) == digits_value(d.drop_last()) * 10 + (d.last() - 48) as nat);
        assert forall|i: int| 0 <= i < d.len() implies is_digit(#[trigger] d[i]) by {
            if i < d.len() - 1 {
                assert(d[i] == decimal(n / 10)[i]);
            }
        }
    } else {
        let d = decimal(n);
        assert(d.drop_last() =~= Seq::<u8>::empty());
        assert((d.last() - 48) as nat == n);
        assert(digits_value(d) == digits_value(d.drop_last()) * 10 + (d.last() - 48) as nat);
    }
}

proof fn lemma_run_end_at(b: Seq<u8>, i: int, j: int)
    requires
        0 <= i <= j <= b.len(),
        forall|k: int| i <= k < j ==> is_digit(#[trigger] b[k]),
        j == b.len() || !is_digit(b[j]),
    ensures
        run_end(b, i) == j,
    decreases j - i,
{
    if i < j {
        lemma_run_end_at(b, i + 1, j);
    }
}

proof fn lemma_last_tail_is(b: Seq<u8>, p: int, n: int)
    requires
        0 <= p < n,
        tail_at(b, p),
        forall|q: int| p < q < n ==> !tail_at(b, q),
    ensures
        last_tail_below(b, n) == p,
    decreases n,
{
    if n - 1 > p {
        lemma_last_tail_is(b, p, n - 1);
    }
}

/// In `w ++ " " ++ h ++ " " ++ t ++ " " ++ z ++ suffix`, with three digit
/// strings and a suffix that holds no space and opens with no digit, the
/// numeric fields stand right after `w` and read `h`, `t` and `z`.
proof fn lemma_fields_of(w: Seq<u8>, h: Seq<u8>, t: Seq<u8>, z: Seq<u8>, suffix: Seq<u8>)
    requires
        h.len() > 0 && all_digits(h),
        t.len() > 0 && all_digits(t),
        z.len() > 0 && all_digits(z),
        forall|k: int| 0 <= k < suffix.len() ==> suffix[k] != SPACE,
        suffix.len() > 0 ==> !is_digit(suffix[0]),
    ensures
        ({
            let b = w + seq![SPACE] + h + seq![SPACE] + t + seq![SPACE] + z + suffix;
            fields_start(b) == w.len() && fields_in(b) == (
                digits_value(h),
                digits_value(t),
                digits_value(z),
            )
        }),
{
    let b = w + seq![SPACE] + h + seq![SPACE] + t + seq![SPACE] + z + suffix;
    let p = w.len() as int;
    let e1 = p + 1 + h.len();
    let e2 = e1 + 1 + t.len();
    let e3 = e2 + 1 + z.len();
    assert(b.len() == e3 + suffix.len());
    assert(b[p] == SPACE);
    assert(b[e1] == SPACE);
    assert(b[e2] == SPACE);
    assert forall|k: int| p + 1 <= k < e1 implies is_digit(#[trigger] b[k]) by {
        assert(b[k] == h[k - p - 1]);
    }
    assert forall|k: int| e1 + 1 <= k < e2 implies is_digit(#[trigger] b[k]) by {
        assert(b[k] == t[k - e1 - 1]);
    }
    assert forall|k: int| e2 + 1 <= k < e3 implies is_digit(#[trigger] b[k]) by {
        assert(b[k] == z[k - e2 - 1]);
    }
    assert forall|k: int| e3 <= k < b.len() implies #[trigger] b[k] != SPACE by {
        assert(b[k] == suffix[k - e3]);
    }
    if e3 < b.len() {
        assert(b[e3] == suffix[0]);
    }
    lemma_run_end_at(b, p + 1, e1);
    lemma_run_end_at(b, e1 + 1, e2);
    lemma_run_end_at(b, e2 + 1, e3);
    assert forall|q: int| p < q < b.len() implies !tail_at(b, q) by {
        if q == e1 {
            lemma_run_end_at(b, e1 + 1, e2);
        } else if q == e2 {
            lemma_run_end_at(b, e2 + 1, e3);
        }
    }
    lemma_last_tail_is(b, p, b.len() as int);
    assert(b.subrange(p + 1, e1) =~= h);
    assert(b.subrange(e1 + 1, e2) =~= t);
    assert(b.subrange(e2 + 1, e3) =~= z);
}

/// How the template writes a file name: bare, in double quotes, or bare
/// with a stray closing quote.
pub enum NameForm {
    Bare,
    Quoted,
    StrayQuote,
}

pub open spec fn written_name(name: Seq<u8>, form: NameForm) -> Seq<u8> {
    match form {
        NameForm::Bare => name,
        NameForm::Quoted => seq![QUOTE] + name + seq![QUOTE],
        NameForm::StrayQuote => name + seq![QUOTE],
    }
}

/// A line built from the announcement template: `prefix`, the marker, the
/// name in the given form, then address, port and size in decimal, each
/// after one space, then `suffix`.
pub open spec fn announcement_line(
    prefix: Seq<u8>,
    name: Seq<u8>,
    form: NameForm,
    host: nat,
    port: nat,
    size: nat,
    suffix: Seq<u8>,
) -> Seq<u8> {
    prefix + marker() + written_name(name, form) + seq![SPACE] + decimal(host) + seq![SPACE]
        + decimal(port) + seq![SPACE] + decimal(size) + suffix
}

proof fn lemma_first_marker(line: Seq<u8>, n: int, i: int)
    requires
        0 <= i <= n,
        n + 9 <= line.len(),
        line.subrange(n, n + 9) == marker(),
        forall|j: int| 0 <= j < n ==> !marker_at(line, j),
    ensures
        marker_from(line, i) == n,
    decreases n - i,
{
    if i < n {
        lemma_first_marker(line, n, i + 1);
    }
}

proof fn lemma_after_marker(prefix: Seq<u8>, body: Seq<u8>)
    requires
        forall|j: int| 0 <= j < prefix.len() ==> !marker_at(prefix + marker(), j),
    ensures
        marker_from(prefix + marker() + body, 0) == prefix.len(),
        after_marker(prefix + marker() + body) == body,
{
    let n = prefix.len() as int;
    let head = prefix + marker();
    let line = head + body;
    assert forall|j: int| 0 <= j < n implies !marker_at(line, j) by {
        assert(!marker_at(head, j));
        if j + 9 <= line.len() {
            assert(line.subrange(j, j + 9) =~= head.subrange(j, j + 9));
        }
    }
    assert(line.subrange(n, n + 9) =~= marker());
    lemma_first_marker(line, n, 0);
    assert(line.skip(n + 9) =~= body);
}

proof fn lemma_name_of(name: Seq<u8>, form: NameForm, rest: Seq<u8>)
    requires
        !(form is Quoted) ==> name.len() > 0 && name[0] != QUOTE && name.last() != QUOTE,
        fields_start(written_name(name, form) + rest) == written_name(name, form).len(),
    ensures
        name_in(written_name(name, form) + rest) == name,
{
    let w = written_name(name, form);
    let body = w + rest;
    let q: int = if body.len() > 0 && body[0] == QUOTE { 1 } else { 0 };
    assert(body[0] == w[0]);
    match form {
        NameForm::Bare => {
            assert(body.subrange(q, w.len() as int) =~= name);
        },
        _ => {
            assert(body.subrange(q, w.len() as int) =~= name + seq![QUOTE]);
            assert((name + seq![QUOTE]).drop_last() =~= name);
        },
    }
}

proof fn lemma_not_keep_alive(prefix: Seq<u8>, rest: Seq<u8>)
    requires
        !is_keep_alive(prefix),
    ensures
        !is_keep_alive(prefix + marker() + rest),
{
    let line = prefix + marker() + rest;
    let n = prefix.len() as int;
    if n >= 7 {
        assert(line.take(6) =~= prefix.take(6));
        assert(line[6] == prefix[6]);
    } else if n == 6 {
        assert(line[6] == marker()[0]);
    } else {
        assert(line[n] == marker()[0]);
        if line.take(6) == ping_word() {
            assert(line.take(6)[n] == line[n]);
        }
    }
}

/// Announcement round trip: a line built from the template gives back the
/// name, address, port and size it was built from, with the name bare or
/// quoted (an empty quoted name included), and with a stray closing quote
/// dropped. The prefix is no keep-alive challenge and holds no earlier
/// marker; the suffix holds no space and opens with no digit; a bare name
/// is not empty and neither opens nor closes with a quote.
pub proof fn announcement_round_trip(
    prefix: Seq<u8>,
    name: Seq<u8>,
    form: NameForm,
    host: u32,
    port: u16,
    size: u64,
    suffix: Seq<u8>,
)
    requires
        !(form is Quoted) ==> name.len() > 0 && name[0] != QUOTE && name.last() != QUOTE,
        !is_keep_alive(prefix),
        forall|j: int| 0 <= j < prefix.len() ==> !marker_at(prefix + marker(), j),
        forall|k: int| 0 <= k < suffix.len() ==> suffix[k] != SPACE,
        suffix.len() > 0 ==> !is_digit(suffix[0]),
    ensures
        ({
            let line = announcement_line(
                prefix,
                name,
                form,
                host as nat,
                port as nat,
                size as nat,
                suffix,
            );
            &&& !is_keep_alive(line)
            &&& is_announcement(line)
            &&& announcement_fits(line)
            &&& name_in(after_marker(line)) == name
            &&& fields_in(after_marker(line)) == (host as nat, port as nat, size as nat)
        }),
{
    let w = written_name(name, form);
    let h = decimal(host as nat);
    let t = decimal(port as nat);
    let z = decimal(size as nat);
    let rest = seq![SPACE] + h + seq![SPACE] + t + seq![SPACE] + z + suffix;
    let body = w + rest;
    let line = announcement_line(prefix, name, form, host as nat, port as nat, size as nat, suffix);
    assert(line =~= prefix + marker() + body);
    assert(body =~= w + seq![SPACE] + h + seq![SPACE] + t + seq![SPACE] + z + suffix);
    lemma_after_marker(prefix, body);
    lemma_decimal(host as nat);
    lemma_decimal(port as nat);
    lemma_decimal(size as nat);
    lemma_fields_of(w, h, t, z, suffix);
    lemma_name_of(name, form, rest);
    lemma_not_keep_alive(prefix, body);
}

/// `pat` stands in `s` at `i`.
pub(crate) fn matches_at(s: &[u8], i: usize, pat: &[u8]) -> (r: bool)
    ensures
        r == (i + pat@.len() <= s@.len() && s@.subrange(i as int, i + pat@.len()) == pat@),
{
    if i > s.len() || pat.len() > s.len() - i {
        return false;
    }
    let mut k: usize = 0;
    while k < pat.len()
        invariant
            k <= pat.len(),
            i + pat.len() <= s.len(),
            forall|j: int| 0 <= j < k ==> s@[i + j] == pat@[j],
        decreases pat.len() - k,
    {
        if s[i + k] != pat[k] {
            proof {
                assert(s@.subrange(i as int, i + pat@.len())[k as int] != pat@[k as int]);
            }
            return false;
        }
        k = k + 1;
    }
    proof {
        assert(s@.subrange(i as int, i + pat@.len()) =~= pat@);
    }
    true
}

/// A copy of `s[from..to]`.
fn copy_range(s: &[u8], from: usize, to: usize) -> (r: Vec<u8>)
    requires
        from <= to <= s@.len(),
    ensures
        r@ == s@.subrange(from as int, to as int),
{
    let mut out: Vec<u8> = Vec::new();
    let mut k: usize = from;
    while k < to
        invariant
            from <= k <= to <= s@.len(),
            out@ == s@.subrange(from as int, k as int),
        decreases to - k,
    {
        out.push(s[k]);
        proof {
            assert(out@ =~= s@.subrange(from as int, k + 1));
        }
        k = k + 1;
    }
    out
}

/// The first place where the marker stands.
fn find_marker(s: &[u8]) -> (r: Option<usize>)
    ensures
        match r {
            Some(i) => marker_from(s@, 0) == i as int,
            None => marker_from(s@, 0) == -1,
        },
{
    let pat: [u8; 9] = [68, 67, 67, 32, 83, 69, 78, 68, 32];
    proof {
        assert(pat@ =~= marker());
    }
    let mut i: usize = 0;
    while i <= s.len() && s.len() - i >= 9
        invariant
            i <= s.len() + 1,
            pat@ == marker(),
            marker_from(s@, 0) == marker_from(s@, i as int),
        decreases s.len() + 1 - i,
    {
        if matches_at(s, i, &pat) {
            return Some(i);
        }
        i = i + 1;
    }
    None
}

/// Where the first non-digit at or after `i` stands.
pub(crate) fn digit_run_end(b: &[u8], i: usize) -> (r: usize)
    requires
        i <= b@.len(),
    ensures
        r as int == run_end(b@, i as int),
        i <= r <= b@.len(),
{
    let mut j: usize = i;
    while j < b.len() && 48 <= b[j] && b[j] <= 57
        invariant
            i <= j <= b@.len(),
            run_end(b@, i as int) == run_end(b@, j as int),
        decreases b@.len() - j,
    {
        j = j + 1;
    }
    j
}

/// The numeric fields stand at `p`.
fn fields_at(b: &[u8], p: usize) -> (r: bool)
    ensures
        r == tail_at(b@, p as int),
{
    if p >= b.len() || b[p] != SPACE {
        return false;
    }
    let e1 = digit_run_end(b, p + 1);
    if !(e1 > p + 1 && e1 < b.len() && b[e1] == SPACE) {
        return false;
    }
    let e2 = digit_run_end(b, e1 + 1);
    if !(e2 > e1 + 1 && e2 < b.len() && b[e2] == SPACE) {
        return false;
    }
    let e3 = digit_run_end(b, e2 + 1);
    e3 > e2 + 1
}

/// The last place where the numeric fields stand.
fn find_fields(b: &[u8]) -> (r: Option<usize>)
    ensures
        match r {
            Some(p) => fields_start(b@) == p as int,
            None => fields_start(b@) == -1,
        },
{
    let mut n: usize = b.len();
    while n > 0
        invariant
            n <= b@.len(),
            fields_start(b@) == last_tail_below(b@, n as int),
        decreases n,
    {
        if fields_at(b, n - 1) {
            return Some(n - 1);
        }
        n = n - 1;
    }
    None
}

/// The number written by the digits `b[start..end]`, if it fits in 64 bits.
pub(crate) fn decimal_value(b: &[u8], start: usize, end: usize) -> (r: Option<u64>)
    requires
        start <= end <= b@.len(),
        all_digits(b@.subrange(start as int, end as int)),
    ensures
        match r {
            Some(v) => v as nat == digits_value(b@.subrange(start as int, end as int)),
            None => digits_value(b@.subrange(start as int, end as int)) > u64::MAX,
        },
{
    let ghost whole = b@.subrange(start as int, end as int);
    let mut acc: u64 = 0;
    let mut k: usize = start;
    while k < end
        invariant
            start <= k <= end <= b@.len(),
            whole == b@.subrange(start as int, end as int),
            all_digits(whole),
            acc as nat == digits_value(b@.subrange(start as int, k as int)),
        decreases end - k,
    {
        let ghost next = b@.subrange(start as int, k + 1);
        proof {
            assert(next.drop_last() =~= b@.subrange(start as int, k as int));
            assert(next.last() == whole[k - start]);
            assert(next =~= whole.take(k + 1 - start));
            lemma_digits_prefix(whole, k + 1 - start);
        }
        let d: u64 = (b[k] - 48) as u64;
        match acc.checked_mul(10) {
            None => {
                return None;
            },
            Some(m) => match m.checked_add(d) {
                None => {
                    return None;
                },
                Some(v) => {
                    acc = v;
                },
            },
        }
        k = k + 1;
    }
    Some(acc)
}

/// Classifies one control-channel line. A keep-alive challenge is
/// recognised only at the start of the line; the announcement marker is
/// looked for anywhere in it.
pub fn parse_line(line: &[u8]) -> (r: Message)
    ensures
        classifies(line@, r),
{
    let ping: [u8; 6] = [80, 73, 78, 71, 32, 58];
    proof {
        assert(ping@ =~= ping_word());
    }
    if line.len() > 6 && matches_at(line, 0, &ping) && 48 <= line[6] && line[6] <= 57 {
        proof {
            assert(line@.take(6) =~= line@.subrange(0, 6));
        }
        let mut end: usize = line.len();
        if line[end - 1] == LF {
            end = end - 1;
        }
        if line[end - 1] == CR {
            end = end - 1;
        }
        let token = copy_range(line, 6, end);
        proof {
            assert(token@ =~= keep_alive_token(line@));
        }
        return Message::KeepAlive { token };
    }
    proof {
        assert(line@.len() > 6 ==> line@.take(6) =~= line@.subrange(0, 6));
    }
    let m = match find_marker(line) {
        None => {
            return Message::Other;
        },
        Some(m) => m,
    };
    proof {
        lemma_marker_from(line@, 0);
    }
    let body = copy_range(line, m + 9, line.len());
    proof {
        assert(body@ =~= after_marker(line@));
    }
    let p = match find_fields(body.as_slice()) {
        None => {
            return Message::Other;
        },
        Some(p) => p,
    };
    proof {
        lemma_last_tail(body@, body@.len() as int);
    }
    let q: usize = if body.len() > 0 && body[0] == QUOTE {
        1
    } else {
        0
    };
    let mut stop: usize = p;
    if stop > q && body[stop - 1] == QUOTE {
        stop = stop - 1;
    }
    let file_name = copy_range(body.as_slice(), q, stop);
    proof {
        assert(file_name@ =~= name_in(body@));
    }
    let e1 = digit_run_end(body.as_slice(), p + 1);
    let e2 = digit_run_end(body.as_slice(), e1 + 1);
    let e3 = digit_run_end(body.as_slice(), e2 + 1);
    proof {
        lemma_run_end_bounds(body@, p + 1);
        lemma_run_end_bounds(body@, e1 + 1);
        lemma_run_end_bounds(body@, e2 + 1);
    }
    let host = decimal_value(body.as_slice(), p + 1, e1);
    let port = decimal_value(body.as_slice(), e1 + 1, e2);
    let size = decimal_value(body.as_slice(), e2 + 1, e3);
    match (host, port, size) {
        (Some(host), Some(port), Some(size)) => {
            if host > 0xffff_ffff || port > 0xffff {
                return Message::Malformed;
            }
            Message::Announcement(
                TransferAnnouncement { file_name, host: host as u32, port: port as u16, size },
            )
        },
        _ => Message::Malformed,
    }
}

} // verus!
