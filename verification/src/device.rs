//! An ADB device handle, the service requests and shell commands it sends, and
//! the parsing of what the device answers.
use vstd::prelude::*;

use crate::adb_error::AdbError;
use crate::models::{
    reboot_mode_name, AppDetail, CurrentApp, ForwardEntry, RebootMode, ReverseEntry,
    ScreenSize, ShellOutput,
};
use crate::outside::{regex_first_groups, regex_groups};
use crate::text::{
    chars_eq, chars_of, join, contains, contains_chars, copy_range, find, find_chars, int_to_dec,
    is_digit, lines, lines_of, nat_to_dec, parse_i32, parse_i64, parse_signed, parse_u16,
    parse_u32, parse_unsigned, push_int, push_nat, push_str, rfind, rfind_chars,
    starts_with, starts_with_chars, string_of, trim, trim_chars, trim_end, views, words,
    words_of,
};

verus! {

/// Default address of the ADB server.
pub const DEFAULT_HOST: &'static str = "127.0.0.1";

/// Default port of the ADB server.
pub const DEFAULT_PORT: u16 = 5037;

/// A handle on one Android device, reached through the ADB server at
/// `host:port`. Each operation opens a fresh connection to the server.
#[derive(Debug, Clone)]
pub struct AdbDevice {
    host: String,
    port: u16,
    pub serial: String,
}

impl AdbDevice {
    pub closed spec fn spec_serial(&self) -> Seq<char> {
        self.serial@
    }

    pub closed spec fn spec_host(&self) -> Seq<char> {
        self.host@
    }

    pub closed spec fn spec_port(&self) -> u16 {
        self.port
    }

    /// A handle on device `serial` through the server at `host:port`.
    pub fn new(serial: &str, host: &str, port: u16) -> (d: AdbDevice)
        ensures
            d.spec_serial() == serial@,
            d.spec_host() == host@,
            d.spec_port() == port,
    {
        AdbDevice {
            serial: string_of(chars_of(serial).as_slice()),
            host: string_of(chars_of(host).as_slice()),
            port,
        }
    }

    /// A handle on device `serial` through the server at `127.0.0.1:5037`.
    pub fn with_serial(serial: &str) -> (d: AdbDevice)
        ensures
            d.spec_serial() == serial@,
            d.spec_host() == DEFAULT_HOST@,
            d.spec_port() == DEFAULT_PORT,
    {
        Self::new(serial, DEFAULT_HOST, DEFAULT_PORT)
    }

    /// The ADB server host.
    pub fn host(&self) -> (r: &str)
        ensures
            r@ == self.spec_host(),
    {
        self.host.as_str()
    }

    /// The ADB server port.
    pub fn port(&self) -> (r: u16)
        ensures
            r == self.spec_port(),
    {
        self.port
    }

    /// The request that selects this device's transport.
    pub fn transport_request(&self) -> (r: String)
        ensures
            r@ == "host:transport:"@ + self.spec_serial(),
    {
        let mut v = chars_of("host:transport:");
        push_str(&mut v, self.serial.as_str());
        string_of(v.as_slice())
    }

    /// A `host-serial:` request for this device.
    pub fn serial_request(&self, what: &str) -> (r: String)
        ensures
            r@ == "host-serial:"@ + self.spec_serial() + ":"@ + what@,
    {
        let mut v = chars_of("host-serial:");
        push_str(&mut v, self.serial.as_str());
        push_str(&mut v, ":");
        push_str(&mut v, what);
        string_of(v.as_slice())
    }

    /// The request that forwards host `tcp:local` to device `tcp:remote`.
    pub fn forward_request(&self, local_port: u16, remote_port: u16) -> (r: String)
        ensures
            r@ == "host-serial:"@ + self.spec_serial() + ":forward:tcp:"@ + nat_to_dec(
                local_port as nat,
            ) + ";tcp:"@ + nat_to_dec(remote_port as nat),
    {
        let mut v = chars_of("host-serial:");
        push_str(&mut v, self.serial.as_str());
        push_str(&mut v, ":forward:tcp:");
        push_nat(&mut v, local_port as u64);
        push_str(&mut v, ";tcp:");
        push_nat(&mut v, remote_port as u64);
        string_of(v.as_slice())
    }

    /// The request that removes the forward of host `tcp:local`.
    pub fn forward_remove_request(&self, local_port: u16) -> (r: String)
        ensures
            r@ == "host-serial:"@ + self.spec_serial() + ":killforward:tcp:"@ + nat_to_dec(
                local_port as nat,
            ),
    {
        let mut v = chars_of("host-serial:");
        push_str(&mut v, self.serial.as_str());
        push_str(&mut v, ":killforward:tcp:");
        push_nat(&mut v, local_port as u64);
        string_of(v.as_slice())
    }

    /// This device's entries of a `host:list-forward` answer.
    pub fn own_forwards(&self, data: &str) -> (r: Vec<ForwardEntry>)
        ensures
            forward_list_matches(r@, forward_rows(lines(data@)).filter(
                |row: (Seq<char>, Seq<char>, Seq<char>)| row.0 == self.spec_serial(),
            )),
    {
        let sr = self.serial.as_str();
        let r = parse_forward_list(data, Some(sr));
        assert((|row: (Seq<char>, Seq<char>, Seq<char>)| row.0 == sr@) =~= (|
            row: (Seq<char>, Seq<char>, Seq<char>),
        |
            row.0 == self.spec_serial()));
        r
    }
}

// ---- text builders ----

/// `prefix + s`.
pub fn prefixed(prefix: &str, s: &str) -> (r: String)
    ensures
        r@ == prefix@ + s@,
{
    let mut v = chars_of(prefix);
    push_str(&mut v, s);
    string_of(v.as_slice())
}

/// The text of `s` without surrounding whitespace.
pub fn trimmed(s: &str) -> (r: String)
    ensures
        r@ == trim(s@),
{
    let c = chars_of(s);
    let t = trim_chars(c.as_slice());
    string_of(t.as_slice())
}

/// The request that runs `cmd` in the device shell.
pub fn shell_request(cmd: &str) -> (r: String)
    ensures
        r@ == "shell:"@ + cmd@,
{
    prefixed("shell:", cmd)
}

/// Marks the exit status in the output of a wrapped shell command.
pub const EXIT_SENTINEL: &'static str = "DROIDRUN_EXIT:";

/// `cmd` run in a subshell, followed by an echo of its exit status after the
/// sentinel: `({cmd}); echo DROIDRUN_EXIT:$?`.
pub fn shell2_command(cmd: &str) -> (r: String)
    ensures
        r@ == "("@ + cmd@ + "); echo "@ + EXIT_SENTINEL@ + "$?"@,
{
    let mut v = chars_of("(");
    push_str(&mut v, cmd);
    push_str(&mut v, "); echo ");
    push_str(&mut v, EXIT_SENTINEL);
    push_str(&mut v, "$?");
    string_of(v.as_slice())
}

/// The exit status after the last sentinel, or -1 when it is absent or unparsable.
pub open spec fn shell2_exit_code(raw: Seq<char>) -> int {
    match rfind(raw, EXIT_SENTINEL@) {
        Some(pos) => match parse_signed(
            trim(raw.skip(pos + EXIT_SENTINEL@.len())),
            i32::MIN as int,
            i32::MAX as int,
        ) {
            Some(c) => c,
            None => -1,
        },
        None => -1,
    }
}

/// The output before the last sentinel, or all of it when there is none.
pub open spec fn shell2_stdout(raw: Seq<char>) -> Seq<char> {
    match rfind(raw, EXIT_SENTINEL@) {
        Some(pos) => raw.take(pos),
        None => raw,
    }
}

/// The shape of the sentinel that rules out a second match after it.
spec fn sentinel_shape(s: Seq<char>) -> bool {
    &&& s.len() == 14
    &&& s[0] == 'D'
    &&& s[2] == 'O'
    &&& s[6] == 'U'
    &&& forall|i: int| 1 <= i < 14 && i != 4 ==> #[trigger] s[i] != 'D'
}

proof fn lemma_no_match_after(out: Seq<char>, s: Seq<char>, tail: Seq<char>, j: int)
    requires
        sentinel_shape(s),
        forall|i: int| 0 <= i < tail.len() ==> #[trigger] tail[i] != 'D',
        out.len() < j,
    ensures
        !crate::text::occurs_at(out + s + tail, s, j),
{
    let raw = out + s + tail;
    if crate::text::occurs_at(raw, s, j) {
        assert(raw.subrange(j, j + 14)[0] == s[0]);
        assert(raw[j] == 'D');
        if j < out.len() + 14 {
            assert(raw[j] == s[j - out.len()]);
            assert(raw.subrange(j, j + 14)[2] == s[2]);
            assert(raw[j + 2] == s[6]);
        } else {
            assert(raw[j] == tail[j - out.len() - 14]);
        }
    }
}

proof fn lemma_sentinel_last(out: Seq<char>, s: Seq<char>, tail: Seq<char>, k: int)
    requires
        sentinel_shape(s),
        forall|i: int| 0 <= i < tail.len() ==> #[trigger] tail[i] != 'D',
        out.len() < k <= out.len() + tail.len() + 1,
    ensures
        crate::text::rfind_below(out + s + tail, s, k) == Some(out.len() as int),
    decreases k,
{
    let j = k - 1;
    if j > out.len() {
        lemma_no_match_after(out, s, tail, j);
        lemma_sentinel_last(out, s, tail, j);
    } else {
        assert((out + s + tail).subrange(j, j + 14) =~= s);
    }
}

/// What `shell2_command` makes a shell print, read back by
/// `parse_shell2_output`, gives back the command's output and exit status:
/// the sentinel found is the one the wrapper printed, whatever the output
/// itself contains.
pub proof fn lemma_shell2_roundtrip(out: Seq<char>, code: i32)
    ensures
        ({
            let raw = out + EXIT_SENTINEL@ + int_to_dec(code as int) + "\n"@;
            shell2_stdout(raw) == out && shell2_exit_code(raw) == code
        }),
{
    reveal_strlit("DROIDRUN_EXIT:");
    reveal_strlit("\n");
    let d = int_to_dec(code as int);
    let tail = d + "\n"@;
    crate::text::lemma_int_to_dec_parses(code as int, i32::MIN as int, i32::MAX as int);
    crate::text::lemma_nat_to_dec_value(
        if code < 0 {
            (-code) as nat
        } else {
            code as nat
        },
    );
    assert forall|i: int| 0 <= i < tail.len() implies #[trigger] tail[i] != 'D' by {
        if i < d.len() {
            if code < 0 && i == 0 {
                assert(d[0] == '-');
            } else if code < 0 {
                assert(d[i] == nat_to_dec((-code) as nat)[i - 1]);
                assert(crate::text::is_digit(nat_to_dec((-code) as nat)[i - 1]));
            } else {
                assert(crate::text::is_digit(d[i]));
            }
        } else {
            assert(tail[i] == '\n');
        }
    }
    let s = EXIT_SENTINEL@;
    assert(s =~= seq!['D', 'R', 'O', 'I', 'D', 'R', 'U', 'N', '_', 'E', 'X', 'I', 'T', ':']);
    assert(sentinel_shape(s));
    let raw = out + s + tail;
    assert(raw == out + EXIT_SENTINEL@ + d + "\n"@);
    lemma_sentinel_last(out, s, tail, raw.len() - 14 + 1);
    let pos = out.len() as int;
    assert(raw.take(pos) =~= out);
    assert(raw.skip(pos + 14) =~= tail);
    assert(d.len() > 0);
    assert(!crate::text::is_ws(tail[0]));
    assert(tail.last() == '\n');
    assert(tail.drop_last() =~= d);
    assert(trim(tail) == d);
}

/// Splits the output of a command wrapped by `shell2_command` into its
/// standard output and exit status.
pub fn parse_shell2_output(raw: &str) -> (r: ShellOutput)
    ensures
        r.stdout@ == shell2_stdout(raw@),
        r.exit_code == shell2_exit_code(raw@),
{
    let c = chars_of(raw);
    let cl = c.len();
    let s = chars_of(EXIT_SENTINEL);
    match rfind_chars(c.as_slice(), s.as_slice()) {
        Some(pos) => {
            assert(pos + s@.len() <= c@.len()) by {
                crate::text::lemma_rfind_bounds(c@, s@);
            }
            let after = copy_range(c.as_slice(), pos + s.len(), c.len());
            assert(after@ == c@.skip(pos + EXIT_SENTINEL@.len()));
            let code_text = trim_chars(after.as_slice());
            let code = match parse_i32(code_text.as_slice()) {
                Some(v) => v,
                None => -1,
            };
            let out = copy_range(c.as_slice(), 0, pos);
            assert(out@ == c@.take(pos as int));
            ShellOutput { stdout: string_of(out.as_slice()), exit_code: code }
        },
        None => ShellOutput { stdout: string_of(c.as_slice()), exit_code: -1 },
    }
}

/// `getprop {name}`.
pub fn getprop_command(name: &str) -> (r: String)
    ensures
        r@ == "getprop "@ + name@,
{
    prefixed("getprop ", name)
}

/// `input tap {x} {y}`.
pub fn tap_command(x: i32, y: i32) -> (r: String)
    ensures
        r@ == "input tap "@ + int_to_dec(x as int) + " "@ + int_to_dec(y as int),
{
    let mut v = chars_of("input tap ");
    push_int(&mut v, x as i64);
    push_str(&mut v, " ");
    push_int(&mut v, y as i64);
    string_of(v.as_slice())
}

/// The text `{verb} {x1} {y1} {x2} {y2} {duration_ms}`.
pub open spec fn gesture_text(verb: Seq<char>, x1: i32, y1: i32, x2: i32, y2: i32, d: u32) -> Seq<
    char,
> {
    verb + " "@ + int_to_dec(x1 as int) + " "@ + int_to_dec(y1 as int) + " "@ + int_to_dec(
        x2 as int,
    ) + " "@ + int_to_dec(y2 as int) + " "@ + nat_to_dec(d as nat)
}

fn gesture_command(verb: &str, x1: i32, y1: i32, x2: i32, y2: i32, d: u32) -> (r: String)
    ensures
        r@ == gesture_text(verb@, x1, y1, x2, y2, d),
{
    let mut v = chars_of(verb);
    push_str(&mut v, " ");
    push_int(&mut v, x1 as i64);
    push_str(&mut v, " ");
    push_int(&mut v, y1 as i64);
    push_str(&mut v, " ");
    push_int(&mut v, x2 as i64);
    push_str(&mut v, " ");
    push_int(&mut v, y2 as i64);
    push_str(&mut v, " ");
    push_nat(&mut v, d as u64);
    string_of(v.as_slice())
}

/// `input swipe {x1} {y1} {x2} {y2} {duration_ms}`.
pub fn swipe_command(x1: i32, y1: i32, x2: i32, y2: i32, duration_ms: u32) -> (r: String)
    ensures
        r@ == gesture_text("input swipe"@, x1, y1, x2, y2, duration_ms),
{
    gesture_command("input swipe", x1, y1, x2, y2, duration_ms)
}

/// `input draganddrop {sx} {sy} {ex} {ey} {duration_ms}`.
pub fn drag_command(sx: i32, sy: i32, ex: i32, ey: i32, duration_ms: u32) -> (r: String)
    ensures
        r@ == gesture_text("input draganddrop"@, sx, sy, ex, ey, duration_ms),
{
    gesture_command("input draganddrop", sx, sy, ex, ey, duration_ms)
}

/// `input keyevent {keycode}`.
pub fn keyevent_command(keycode: i32) -> (r: String)
    ensures
        r@ == "input keyevent "@ + int_to_dec(keycode as int),
{
    let mut v = chars_of("input keyevent ");
    push_int(&mut v, keycode as i64);
    string_of(v.as_slice())
}

/// How `input text` needs one character written inside double quotes.
pub open spec fn escape_char(c: char) -> Seq<char> {
    if c == '\\' {
        seq!['\\', '\\']
    } else if c == '"' {
        seq!['\\', '"']
    } else if c == ' ' {
        seq!['%', 's']
    } else if c == '&' {
        seq!['\\', '&']
    } else if c == '<' {
        seq!['\\', '<']
    } else if c == '>' {
        seq!['\\', '>']
    } else if c == '\'' {
        seq!['\\', '\'']
    } else {
        seq![c]
    }
}

/// Every character of `s` escaped for `input text`.
pub open spec fn escape_text(s: Seq<char>) -> Seq<char>
    decreases s.len(),
{
    if s.len() == 0 {
        seq![]
    } else {
        escape_text(s.drop_last()) + escape_char(s.last())
    }
}

/// How `input text` reads its quoted argument back into the text it types:
/// a backslash makes the next character literal, `%s` is a space, and any
/// other character stands for itself.
pub open spec fn input_unescape(s: Seq<char>) -> Seq<char>
    decreases s.len(),
{
    if s.len() == 0 {
        seq![]
    } else if s[0] == '\\' && s.len() >= 2 {
        seq![s[1]] + input_unescape(s.skip(2))
    } else if s[0] == '%' && s.len() >= 2 && s[1] == 's' {
        seq![' '] + input_unescape(s.skip(2))
    } else {
        seq![s[0]] + input_unescape(s.skip(1))
    }
}

/// `%` directly followed by `s` somewhere in the text (which `input text`
/// reads as a space whatever is done to it).
pub open spec fn has_percent_s(t: Seq<char>) -> bool {
    exists|k: int| 0 <= k < t.len() - 1 && t[k] == '%' && #[trigger] t[k + 1] == 's'
}

proof fn lemma_escape_front(c: char, t: Seq<char>)
    ensures
        escape_text(seq![c] + t) == escape_char(c) + escape_text(t),
    decreases t.len(),
{
    let s = seq![c] + t;
    if t.len() == 0 {
        assert(s.drop_last() =~= Seq::<char>::empty());
        assert(escape_text(s) == escape_text(s.drop_last()) + escape_char(s.last()));
        assert(escape_text(Seq::<char>::empty()) == Seq::<char>::empty());
        assert(t =~= Seq::<char>::empty());
        assert(Seq::<char>::empty() + escape_char(c) =~= escape_char(c));
        assert(escape_char(c) + Seq::<char>::empty() =~= escape_char(c));
    } else {
        lemma_escape_front(c, t.drop_last());
        assert(s.drop_last() =~= seq![c] + t.drop_last());
        assert(s.last() == t.last());
        assert(escape_text(s) == escape_text(s.drop_last()) + escape_char(s.last()));
        assert(escape_text(t) == escape_text(t.drop_last()) + escape_char(t.last()));
        assert(escape_char(c) + escape_text(t.drop_last()) + escape_char(t.last()) =~= escape_char(
            c,
        ) + (escape_text(t.drop_last()) + escape_char(t.last())));
    }
}

proof fn lemma_escape_empty_or_head(t: Seq<char>)
    ensures
        t.len() == 0 ==> escape_text(t).len() == 0,
        t.len() > 0 ==> escape_text(t).len() > 0 && escape_text(t)[0] == escape_char(t[0])[0],
{
    if t.len() > 0 {
        lemma_escape_front(t[0], t.skip(1));
        assert(seq![t[0]] + t.skip(1) =~= t);
    }
}

/// What `input text "..."` types for the command `input_text_command`
/// builds is the text itself: every character comes back, a space from
/// exactly `%s`, the escaped characters from their backslash pairs. (A text
/// that itself holds `%s` cannot come back: `input text` types a space
/// there.)
pub proof fn lemma_input_text_reads_back(t: Seq<char>)
    requires
        !has_percent_s(t),
    ensures
        input_unescape(escape_text(t)) == t,
    decreases t.len(),
{
    if t.len() > 0 {
        let c = t[0];
        let rest = t.skip(1);
        assert(seq![c] + rest =~= t);
        lemma_escape_front(c, rest);
        assert(!has_percent_s(rest)) by {
            if has_percent_s(rest) {
                let k = choose|k: int| 0 <= k < rest.len() - 1 && rest[k] == '%' && #[trigger] rest[k + 1] == 's';
                assert(t[k + 1] == '%' && t[k + 2] == 's');
            }
        }
        lemma_input_text_reads_back(rest);
        lemma_escape_empty_or_head(rest);
        let er = escape_text(rest);
        let e = escape_char(c) + er;
        if c == '\\' || c == '"' || c == '&' || c == '<' || c == '>' || c == '\'' {
            assert(e[0] == '\\' && e[1] == c);
            assert(e.skip(2) =~= er);
        } else if c == ' ' {
            assert(e[0] == '%' && e[1] == 's');
            assert(e.skip(2) =~= er);
        } else {
            assert(escape_char(c) == seq![c]);
            assert(e.skip(1) =~= er);
            if c == '%' && e.len() >= 2 {
                assert(e[1] == er[0]);
                assert(rest.len() > 0);
                assert(er[0] == escape_char(rest[0])[0]);
                if rest[0] == 's' {
                    assert(t[0] == '%' && t[1int] == 's');
                    assert(has_percent_s(t));
                }
                assert(escape_char(rest[0])[0] != 's');
            }
        }
        assert(seq![c] + rest =~= t);
    } else {
        assert(escape_text(t) =~= Seq::<char>::empty());
    }
}

/// Escapes `text` for `input text "..."`: backslash, double and single quote,
/// `&`, `<` and `>` get a backslash; a space becomes `%s`.
pub fn escape_input_text(text: &str) -> (r: String)
    ensures
        r@ == escape_text(text@),
        !has_percent_s(text@) ==> input_unescape(r@) == text@,
{
    proof {
        if !has_percent_s(text@) {
            lemma_input_text_reads_back(text@);
        }
    }
    let c = chars_of(text);
    let mut v: Vec<char> = Vec::new();
    let mut i: usize = 0;
    while i < c.len()
        invariant
            i <= c@.len(),
            v@ == escape_text(c@.take(i as int)),
        decreases c@.len() - i,
    {
        let ch = c[i];
        if ch == '\\' {
            v.push('\\');
            v.push('\\');
        } else if ch == '"' {
            v.push('\\');
            v.push('"');
        } else if ch == ' ' {
            v.push('%');
            v.push('s');
        } else if ch == '&' {
            v.push('\\');
            v.push('&');
        } else if ch == '<' {
            v.push('\\');
            v.push('<');
        } else if ch == '>' {
            v.push('\\');
            v.push('>');
        } else if ch == '\'' {
            v.push('\\');
            v.push('\'');
        } else {
            v.push(ch);
        }
        assert(c@.take(i + 1).drop_last() == c@.take(i as int));
        assert(v@ =~= escape_text(c@.take(i + 1)));
        i = i + 1;
    }
    assert(c@.take(c@.len() as int) == c@);
    string_of(v.as_slice())
}

/// `input text "{escaped}"`.
pub fn input_text_command(text: &str) -> (r: String)
    ensures
        r@ == "input text \""@ + escape_text(text@) + "\""@,
{
    let e = escape_input_text(text);
    let mut v = chars_of("input text \"");
    push_str(&mut v, e.as_str());
    push_str(&mut v, "\"");
    string_of(v.as_slice())
}

/// The error for an empty screenshot.
pub fn check_screencap(data: Vec<u8>) -> (r: Result<Vec<u8>, AdbError>)
    ensures
        data@.len() > 0 ==> r == Ok::<Vec<u8>, AdbError>(data),
        data@.len() == 0 ==> (r matches Err(AdbError::ShellError(m)) && m@
            == "screencap returned empty data"@),
{
    if data.len() == 0 {
        Err(AdbError::ShellError(string_of(chars_of("screencap returned empty data").as_slice())))
    } else {
        Ok(data)
    }
}

// ---- apps ----

/// `cmd package resolve-activity --brief {package}`.
pub fn resolve_activity_command(package: &str) -> (r: String)
    ensures
        r@ == "cmd package resolve-activity --brief "@ + package@,
{
    prefixed("cmd package resolve-activity --brief ", package)
}

/// The part after the first `/`, or all of `s` when there is no `/`.
pub open spec fn after_slash(s: Seq<char>) -> Seq<char> {
    match find(s, "/"@) {
        Some(i) => s.skip(i + 1),
        None => s,
    }
}

/// The activity named on the second line of a `resolve-activity --brief` answer.
pub open spec fn resolved_activity(output: Seq<char>) -> Option<Seq<char>> {
    let ls = lines(output);
    if ls.len() < 2 {
        None
    } else {
        Some(after_slash(trim(ls[1])))
    }
}

/// The main activity of `package`, from the answer of `resolve-activity --brief`.
pub fn parse_resolved_activity(package: &str, output: &str) -> (r: Result<String, AdbError>)
    ensures
        match resolved_activity(output@) {
            Some(a) => r matches Ok(s) && s@ == a,
            None => r matches Err(AdbError::ShellError(m)) && m@
                == "cannot resolve main activity for "@ + package@,
        },
{
    let c = chars_of(output);
    let ls = lines_of(c.as_slice());
    if ls.len() < 2 {
        return Err(AdbError::ShellError(prefixed("cannot resolve main activity for ", package)));
    }
    assert(views(ls@)[1] == ls@[1]@);
    let full = trim_chars(ls[1].as_slice());
    let fl = full.len();
    let slash = chars_of("/");
    match find_chars(full.as_slice(), slash.as_slice()) {
        Some(i) => {
            proof {
                crate::text::lemma_contains_find(full@, slash@);
                reveal_strlit("/");
            }
            let act = copy_range(full.as_slice(), i + 1, full.len());
            assert(act@ == full@.skip(i + 1));
            Ok(string_of(act.as_slice()))
        },
        None => Ok(string_of(full.as_slice())),
    }
}

/// `am start -n {package}/{activity}`.
pub fn app_start_command(package: &str, activity: &str) -> (r: String)
    ensures
        r@ == "am start -n "@ + package@ + "/"@ + activity@,
{
    let mut v = chars_of("am start -n ");
    push_str(&mut v, package);
    push_str(&mut v, "/");
    push_str(&mut v, activity);
    string_of(v.as_slice())
}

/// `am force-stop {package}`.
pub fn app_stop_command(package: &str) -> (r: String)
    ensures
        r@ == "am force-stop "@ + package@,
{
    prefixed("am force-stop ", package)
}

/// `pm clear {package}`.
pub fn app_clear_command(package: &str) -> (r: String)
    ensures
        r@ == "pm clear "@ + package@,
{
    prefixed("pm clear ", package)
}

/// `pm uninstall {package}`.
pub fn uninstall_command(package: &str) -> (r: String)
    ensures
        r@ == "pm uninstall "@ + package@,
{
    prefixed("pm uninstall ", package)
}

/// `dumpsys package {package}`.
pub fn app_info_command(package: &str) -> (r: String)
    ensures
        r@ == "dumpsys package "@ + package@,
{
    prefixed("dumpsys package ", package)
}

/// The shell command that reports the resumed activity and the focused window.
pub const APP_CURRENT_COMMAND: &'static str = "dumpsys activity activities | grep -E 'mResumedActivity|mCurrentFocus'";

/// Where an APK is staged before `pm install`.
pub const INSTALL_STAGING_PATH: &'static str = "/data/local/tmp/_droidrun_install.apk";

/// The views of a list of string slices.
pub open spec fn str_views(flags: Seq<&str>) -> Seq<Seq<char>> {
    flags.map_values(|f: &str| f@)
}

/// `""` for no flags, otherwise a space and the flags joined by spaces.
pub open spec fn flag_text(flags: Seq<&str>) -> Seq<char> {
    if flags.len() == 0 {
        seq![]
    } else {
        " "@ + join(str_views(flags), " "@)
    }
}

fn push_flags(v: &mut Vec<char>, flags: &[&str])
    ensures
        final(v)@ == old(v)@ + flag_text(flags@),
{
    if flags.len() == 0 {
        assert(old(v)@ + flag_text(flags@) =~= old(v)@);
        return;
    }
    let ghost start = v@;
    let mut i: usize = 0;
    while i < flags.len()
        invariant
            i <= flags@.len(),
            flags@.len() > 0,
            v@ == start + if i == 0 {
                Seq::<char>::empty()
            } else {
                " "@ + join(str_views(flags@).take(i as int), " "@)
            },
        decreases flags@.len() - i,
    {
        push_str(v, " ");
        push_str(v, flags[i]);
        let ghost t = str_views(flags@).take(i + 1);
        assert(t.drop_last() == str_views(flags@).take(i as int));
        assert(t.last() == flags@[i as int]@);
        if i == 0 {
            assert(t.len() == 1);
            assert(join(t, " "@) == t[0]);
        }
        assert(v@ =~= start + " "@ + join(t, " "@));
        i = i + 1;
    }
    assert(str_views(flags@).take(flags@.len() as int) =~= str_views(flags@));
}

/// `pm install{flags} {remote}`.
pub fn install_command(flags: &[&str], remote: &str) -> (r: String)
    ensures
        r@ == "pm install"@ + flag_text(flags@) + " "@ + remote@,
{
    let mut v = chars_of("pm install");
    push_flags(&mut v, flags);
    push_str(&mut v, " ");
    push_str(&mut v, remote);
    string_of(v.as_slice())
}

/// `pm list packages{flags}`.
pub fn list_packages_command(flags: &[&str]) -> (r: String)
    ensures
        r@ == "pm list packages"@ + flag_text(flags@),
{
    let mut v = chars_of("pm list packages");
    push_flags(&mut v, flags);
    string_of(v.as_slice())
}

/// `rm -f {path}` (the staged APK is removed after an install).
pub fn rm_command(path: &str) -> (r: String)
    ensures
        r@ == "rm -f "@ + path@,
{
    prefixed("rm -f ", path)
}

/// The outcome of `pm install`: success when the answer mentions `Success`.
pub fn install_outcome(result: &str) -> (r: Result<String, AdbError>)
    ensures
        contains(result@, "Success"@) ==> (r matches Ok(s) && s@ == trim(result@)),
        !contains(result@, "Success"@) ==> (r matches Err(AdbError::InstallFailed(m)) && m@
            == trim(result@)),
{
    let c = chars_of(result);
    let t = string_of(trim_chars(c.as_slice()).as_slice());
    if contains_chars(c.as_slice(), chars_of("Success").as_slice()) {
        Ok(t)
    } else {
        Err(AdbError::InstallFailed(t))
    }
}

/// The outcome of `pm uninstall`: success when the answer mentions `Success`.
pub fn uninstall_outcome(result: &str) -> (r: Result<String, AdbError>)
    ensures
        contains(result@, "Success"@) ==> (r matches Ok(s) && s@ == trim(result@)),
        !contains(result@, "Success"@) ==> (r matches Err(AdbError::UninstallFailed(m)) && m@
            == trim(result@)),
{
    let c = chars_of(result);
    let t = string_of(trim_chars(c.as_slice()).as_slice());
    if contains_chars(c.as_slice(), chars_of("Success").as_slice()) {
        Ok(t)
    } else {
        Err(AdbError::UninstallFailed(t))
    }
}

/// The package names of a `pm list packages` answer: each line that starts
/// with `package:`, without that prefix, trimmed.
pub open spec fn package_names(ls: Seq<Seq<char>>) -> Seq<Seq<char>>
    decreases ls.len(),
{
    if ls.len() == 0 {
        seq![]
    } else {
        let prev = package_names(ls.drop_last());
        let l = ls.last();
        if starts_with(l, "package:"@) {
            prev.push(trim(l.skip("package:"@.len() as int)))
        } else {
            prev
        }
    }
}

/// The package names of a `pm list packages` answer.
pub fn parse_package_list(output: &str) -> (r: Vec<String>)
    ensures
        r@.map_values(|s: String| s@) == package_names(lines(output@)),
{
    let c = chars_of(output);
    let ls = lines_of(c.as_slice());
    let pre = chars_of("package:");
    let ghost lv = views(ls@);
    let mut r: Vec<String> = Vec::new();
    let mut i: usize = 0;
    while i < ls.len()
        invariant
            i <= ls@.len(),
            lv == views(ls@),
            pre@ == "package:"@,
            r@.map_values(|s: String| s@) == package_names(lv.take(i as int)),
        decreases ls@.len() - i,
    {
        let l = &ls[i];
        assert(lv.take(i + 1).drop_last() == lv.take(i as int));
        assert(lv.take(i + 1).last() == l@);
        if starts_with_chars(l.as_slice(), pre.as_slice()) {
            let rest = copy_range(l.as_slice(), pre.len(), l.len());
            assert(rest@ == l@.skip("package:"@.len() as int));
            let t = trim_chars(rest.as_slice());
            r.push(string_of(t.as_slice()));
            assert(r@.map_values(|s: String| s@) =~= package_names(lv.take(i + 1)));
        } else {
            assert(r@.map_values(|s: String| s@) =~= package_names(lv.take(i + 1)));
        }
        i = i + 1;
    }
    assert(lv.take(ls@.len() as int) == lv);
    r
}

/// One step of reading a `dumpsys package` answer.
pub open spec fn strip_all(s: Seq<char>, p: Seq<char>) -> Seq<char>
    decreases s.len(),
{
    if p.len() > 0 && starts_with(s, p) {
        strip_all(s.skip(p.len() as int), p)
    } else {
        s
    }
}

/// `str::trim_start_matches(p)`.
pub fn strip_all_chars(s: &[char], p: &[char]) -> (r: Vec<char>)
    ensures
        r@ == strip_all(s@, p@),
{
    let n = s.len();
    let mut i: usize = 0;
    assert(s@.subrange(0, n as int) == s@);
    while p.len() > 0 && i <= n && matches_prefix_at(s, p, i)
        invariant
            i <= n == s@.len(),
            strip_all(s@, p@) == strip_all(s@.subrange(i as int, n as int), p@),
        decreases n - i,
    {
        let ghost t = s@.subrange(i as int, n as int);
        assert(t.skip(p@.len() as int) == s@.subrange(i + p@.len(), n as int));
        i = i + p.len();
    }
    copy_range(s, i, n)
}

fn matches_prefix_at(s: &[char], p: &[char], i: usize) -> (b: bool)
    requires
        i <= s@.len(),
    ensures
        b == starts_with(s@.subrange(i as int, s@.len() as int), p@),
        b ==> i + p@.len() <= s@.len(),
{
    let b = crate::text::matches_at(s, p, i);
    let ghost t = s@.subrange(i as int, s@.len() as int);
    assert(b ==> t.take(p@.len() as int) == s@.subrange(i as int, i + p@.len()));
    assert(starts_with(t, p@) ==> s@.subrange(i as int, i + p@.len()) == t.take(
        p@.len() as int,
    ));
    b
}

/// The fields of an [`AppDetail`] other than the package name.
pub struct AppDetailView {
    pub version_name: Option<Seq<char>>,
    pub version_code: Option<int>,
    pub install_path: Option<Seq<char>>,
    pub first_install_time: Option<Seq<char>>,
    pub last_update_time: Option<Seq<char>>,
}

pub open spec fn opt_view(o: Option<String>) -> Option<Seq<char>> {
    match o {
        Some(s) => Some(s@),
        None => None,
    }
}

pub open spec fn opt_int(o: Option<i64>) -> Option<int> {
    match o {
        Some(v) => Some(v as int),
        None => None,
    }
}

impl AppDetail {
    pub open spec fn fields(&self) -> AppDetailView {
        AppDetailView {
            version_name: opt_view(self.version_name),
            version_code: opt_int(self.version_code),
            install_path: opt_view(self.install_path),
            first_install_time: opt_view(self.first_install_time),
            last_update_time: opt_view(self.last_update_time),
        }
    }
}

/// The version code of a `versionCode=` value: its first word, as an `i64`.
pub open spec fn version_code_of(rest: Seq<char>) -> Option<int> {
    let w = words(rest);
    let val = if w.len() > 0 {
        w[0]
    } else {
        "0"@
    };
    parse_signed(val, i64::MIN as int, i64::MAX as int)
}

/// The fields read from the lines `ls` of a `dumpsys package` answer; a later
/// line overrides an earlier one.
pub open spec fn app_fields(ls: Seq<Seq<char>>) -> AppDetailView
    decreases ls.len(),
{
    if ls.len() == 0 {
        AppDetailView {
            version_name: None,
            version_code: None,
            install_path: None,
            first_install_time: None,
            last_update_time: None,
        }
    } else {
        let d = app_fields(ls.drop_last());
        let t = trim(ls.last());
        if starts_with(t, "versionName="@) {
            AppDetailView { version_name: Some(strip_all(t, "versionName="@)), ..d }
        } else if starts_with(t, "versionCode="@) {
            AppDetailView { version_code: version_code_of(strip_all(t, "versionCode="@)), ..d }
        } else if starts_with(t, "codePath="@) {
            AppDetailView { install_path: Some(strip_all(t, "codePath="@)), ..d }
        } else if starts_with(t, "firstInstallTime="@) {
            AppDetailView { first_install_time: Some(strip_all(t, "firstInstallTime="@)), ..d }
        } else if starts_with(t, "lastUpdateTime="@) {
            AppDetailView { last_update_time: Some(strip_all(t, "lastUpdateTime="@)), ..d }
        } else {
            d
        }
    }
}

/// Reads version name and code, install path and install/update times from a
/// `dumpsys package` answer.
pub fn parse_app_info(package: &str, output: &str) -> (r: AppDetail)
    ensures
        r.package@ == package@,
        r.fields() == app_fields(lines(output@)),
{
    let c = chars_of(output);
    let ls = lines_of(c.as_slice());
    let ghost lv = views(ls@);
    let p_name = chars_of("versionName=");
    let p_code = chars_of("versionCode=");
    let p_path = chars_of("codePath=");
    let p_first = chars_of("firstInstallTime=");
    let p_last = chars_of("lastUpdateTime=");
    let mut d = AppDetail {
        package: string_of(chars_of(package).as_slice()),
        version_name: None,
        version_code: None,
        install_path: None,
        first_install_time: None,
        last_update_time: None,
    };
    let mut i: usize = 0;
    while i < ls.len()
        invariant
            i <= ls@.len(),
            lv == views(ls@),
            d.package@ == package@,
            p_name@ == "versionName="@,
            p_code@ == "versionCode="@,
            p_path@ == "codePath="@,
            p_first@ == "firstInstallTime="@,
            p_last@ == "lastUpdateTime="@,
            d.fields() == app_fields(lv.take(i as int)),
        decreases ls@.len() - i,
    {
        assert(lv.take(i + 1).drop_last() == lv.take(i as int));
        assert(lv.take(i + 1).last() == ls@[i as int]@);
        let t = trim_chars(ls[i].as_slice());
        let t = t.as_slice();
        if starts_with_chars(t, p_name.as_slice()) {
            let v = strip_all_chars(t, p_name.as_slice());
            d.version_name = Some(string_of(v.as_slice()));
        } else if starts_with_chars(t, p_code.as_slice()) {
            let rest = strip_all_chars(t, p_code.as_slice());
            let w = words_of(rest.as_slice());
            let val = if w.len() > 0 {
                assert(views(w@)[0] == w@[0]@);
                copy_range(w[0].as_slice(), 0, w[0].len())
            } else {
                chars_of("0")
            };
            assert(w@.len() > 0 ==> w@[0]@.subrange(0, w@[0]@.len() as int) == w@[0]@);
            d.version_code = parse_i64(val.as_slice());
        } else if starts_with_chars(t, p_path.as_slice()) {
            let v = strip_all_chars(t, p_path.as_slice());
            d.install_path = Some(string_of(v.as_slice()));
        } else if starts_with_chars(t, p_first.as_slice()) {
            let v = strip_all_chars(t, p_first.as_slice());
            d.first_install_time = Some(string_of(v.as_slice()));
        } else if starts_with_chars(t, p_last.as_slice()) {
            let v = strip_all_chars(t, p_last.as_slice());
            d.last_update_time = Some(string_of(v.as_slice()));
        }
        i = i + 1;
    }
    assert(lv.take(ls@.len() as int) == lv);
    d
}

// ---- foreground app ----

/// The pattern that finds `package/activity` followed by whitespace.
pub const CURRENT_APP_PATTERN: &'static str = r"(\S+)/(\S+)\s";

/// The looser pattern tried on the `mResumedActivity`/`mCurrentFocus` lines.
pub const CURRENT_APP_FALLBACK_PATTERN: &'static str = r"([a-zA-Z0-9_.]+)/([a-zA-Z0-9_.]+)";

/// Removes trailing `}` characters.
pub open spec fn trim_braces(s: Seq<char>) -> Seq<char>
    decreases s.len(),
{
    if s.len() > 0 && s.last() == '}' {
        trim_braces(s.drop_last())
    } else {
        s
    }
}

/// The first line (among `ls`) matched by the primary pattern, as an app.
pub open spec fn primary_app(ls: Seq<Seq<char>>) -> Option<(Seq<char>, Seq<char>)>
    decreases ls.len(),
{
    if ls.len() == 0 {
        None
    } else {
        match regex_first_groups(CURRENT_APP_PATTERN@, ls[0]) {
            Some((p, a)) => Some((p, trim_end(trim_braces(a)))),
            None => primary_app(ls.drop_first()),
        }
    }
}

/// The first line naming `mResumedActivity` or `mCurrentFocus` matched by the
/// fallback pattern.
pub open spec fn fallback_app(ls: Seq<Seq<char>>) -> Option<(Seq<char>, Seq<char>)>
    decreases ls.len(),
{
    if ls.len() == 0 {
        None
    } else if contains(ls[0], "mResumedActivity"@) || contains(ls[0], "mCurrentFocus"@) {
        match regex_first_groups(CURRENT_APP_FALLBACK_PATTERN@, ls[0]) {
            Some(g) => Some(g),
            None => fallback_app(ls.drop_first()),
        }
    } else {
        fallback_app(ls.drop_first())
    }
}

/// The foreground app named in `dumpsys activity activities` output.
pub open spec fn current_app_of(output: Seq<char>) -> Option<(Seq<char>, Seq<char>)> {
    match primary_app(lines(output)) {
        Some(g) => Some(g),
        None => fallback_app(lines(output)),
    }
}

fn trim_braces_chars(s: &[char]) -> (r: Vec<char>)
    ensures
        r@ == trim_braces(s@),
{
    let mut j = s.len();
    assert(s@.subrange(0, j as int) == s@);
    while j > 0 && s[j - 1] == '}'
        invariant
            j <= s@.len(),
            trim_braces(s@) == trim_braces(s@.subrange(0, j as int)),
        decreases j,
    {
        assert(s@.subrange(0, j as int).drop_last() == s@.subrange(0, j - 1));
        j = j - 1;
    }
    copy_range(s, 0, j)
}

fn trim_end_chars(s: &[char]) -> (r: Vec<char>)
    ensures
        r@ == trim_end(s@),
{
    let mut j = s.len();
    assert(s@.subrange(0, j as int) == s@);
    while j > 0 && crate::text::is_whitespace(s[j - 1])
        invariant
            j <= s@.len(),
            trim_end(s@) == trim_end(s@.subrange(0, j as int)),
        decreases j,
    {
        assert(s@.subrange(0, j as int).drop_last() == s@.subrange(0, j - 1));
        j = j - 1;
    }
    copy_range(s, 0, j)
}

/// The foreground app from `dumpsys activity activities` output.
pub fn parse_current_app(output: &str) -> (r: Result<CurrentApp, AdbError>)
    ensures
        match current_app_of(output@) {
            Some((p, a)) => r matches Ok(app) && app.package@ == p && app.activity@ == a,
            None => r matches Err(AdbError::Parse(m)) && m@
                == "cannot determine current foreground app"@,
        },
{
    let c = chars_of(output);
    let ls = lines_of(c.as_slice());
    let ghost lv = views(ls@);
    assert(lv == lines(output@));
    let mut i: usize = 0;
    assert(lv.skip(0) == lv);
    while i < ls.len()
        invariant
            i <= ls@.len(),
            lv == views(ls@),
            lv == lines(output@),
            primary_app(lv) == primary_app(lv.skip(i as int)),
        decreases ls@.len() - i,
    {
        let line = string_of(ls[i].as_slice());
        assert(lv.skip(i as int)[0] == ls@[i as int]@);
        assert(lv.skip(i as int).drop_first() == lv.skip(i + 1));
        match regex_groups(CURRENT_APP_PATTERN, line.as_str()) {
            Some((p, a)) => {
                assert(line@ == lv.skip(i as int)[0]);
                let ac = chars_of(a.as_str());
                let tb = trim_braces_chars(ac.as_slice());
                let te = trim_end_chars(tb.as_slice());
                return Ok(CurrentApp { package: p, activity: string_of(te.as_slice()) });
            },
            None => {},
        }
        i = i + 1;
    }
    assert(lv.skip(ls@.len() as int) =~= Seq::<Seq<char>>::empty());
    let k1 = chars_of("mResumedActivity");
    let k2 = chars_of("mCurrentFocus");
    let mut j: usize = 0;
    while j < ls.len()
        invariant
            j <= ls@.len(),
            lv == views(ls@),
            lv == lines(output@),
            primary_app(lv) is None,
            k1@ == "mResumedActivity"@,
            k2@ == "mCurrentFocus"@,
            fallback_app(lv) == fallback_app(lv.skip(j as int)),
        decreases ls@.len() - j,
    {
        assert(lv.skip(j as int)[0] == ls@[j as int]@);
        assert(lv.skip(j as int).drop_first() == lv.skip(j + 1));
        if contains_chars(ls[j].as_slice(), k1.as_slice()) || contains_chars(
            ls[j].as_slice(),
            k2.as_slice(),
        ) {
            let line = string_of(ls[j].as_slice());
            match regex_groups(CURRENT_APP_FALLBACK_PATTERN, line.as_str()) {
                Some((p, a)) => {
                    assert(line@ == lv.skip(j as int)[0]);
                    return Ok(CurrentApp { package: p, activity: a });
                },
                None => {},
            }
        }
        j = j + 1;
    }
    assert(lv.skip(ls@.len() as int) =~= Seq::<Seq<char>>::empty());
    Err(AdbError::Parse(string_of(chars_of("cannot determine current foreground app").as_slice())))
}

// ---- port forwarding ----

/// The rows `serial local remote` of a `list-forward` answer: non-empty
/// lines with at least three words.
pub open spec fn forward_rows(ls: Seq<Seq<char>>) -> Seq<(Seq<char>, Seq<char>, Seq<char>)>
    decreases ls.len(),
{
    if ls.len() == 0 {
        seq![]
    } else {
        let prev = forward_rows(ls.drop_last());
        let w = words(ls.last());
        if ls.last().len() > 0 && w.len() >= 3 {
            prev.push((w[0], w[1], w[2]))
        } else {
            prev
        }
    }
}

/// `r` holds exactly the entries `rows`, in order.
pub open spec fn forward_list_matches(
    r: Seq<ForwardEntry>,
    rows: Seq<(Seq<char>, Seq<char>, Seq<char>)>,
) -> bool {
    &&& r.len() == rows.len()
    &&& forall|i: int|
        0 <= i < r.len() ==> (#[trigger] r[i]).serial@ == rows[i].0 && r[i].local@ == rows[i].1
            && r[i].remote@ == rows[i].2
}

/// The entries of a `list-forward` answer, optionally only those of one device.
pub fn parse_forward_list(data: &str, serial: Option<&str>) -> (r: Vec<ForwardEntry>)
    ensures
        match serial {
            Some(s) => forward_list_matches(
                r@,
                forward_rows(lines(data@)).filter(
                    |row: (Seq<char>, Seq<char>, Seq<char>)| row.0 == s@,
                ),
            ),
            None => forward_list_matches(r@, forward_rows(lines(data@))),
        },
{
    let c = chars_of(data);
    let ls = lines_of(c.as_slice());
    let ghost lv = views(ls@);
    let ghost keep = |row: (Seq<char>, Seq<char>, Seq<char>)|
        match serial {
            Some(s) => row.0 == s@,
            None => true,
        };
    let want: Option<Vec<char>> = match serial {
        Some(s) => Some(chars_of(s)),
        None => None,
    };
    let mut r: Vec<ForwardEntry> = Vec::new();
    let mut i: usize = 0;
    while i < ls.len()
        invariant
            i <= ls@.len(),
            lv == views(ls@),
            keep == (|row: (Seq<char>, Seq<char>, Seq<char>)|
                match serial {
                    Some(s) => row.0 == s@,
                    None => true,
                }),
            match serial {
                Some(s) => want matches Some(w) && w@ == s@,
                None => want is None,
            },
            forward_list_matches(r@, forward_rows(lv.take(i as int)).filter(keep)),
        decreases ls@.len() - i,
    {
        let ghost prev_rows = forward_rows(lv.take(i as int));
        assert(lv.take(i + 1).drop_last() == lv.take(i as int));
        assert(lv.take(i + 1).last() == ls@[i as int]@);
        let w = words_of(ls[i].as_slice());
        if ls[i].len() > 0 && w.len() >= 3 {
            assert(views(w@)[0] == w@[0]@ && views(w@)[1] == w@[1]@ && views(w@)[2] == w@[2]@);
            let row_ok = match &want {
                Some(s) => chars_eq(w[0].as_slice(), s.as_slice()),
                None => true,
            };
            let ghost row = (w@[0]@, w@[1]@, w@[2]@);
            assert(forward_rows(lv.take(i + 1)) == prev_rows.push(row));
            proof {
                crate::text::lemma_filter_push(prev_rows, keep, row);
            }
            if row_ok {
                r.push(
                    ForwardEntry {
                        serial: string_of(w[0].as_slice()),
                        local: string_of(w[1].as_slice()),
                        remote: string_of(w[2].as_slice()),
                    },
                );
            }
        } else {
            assert(forward_rows(lv.take(i + 1)) == prev_rows);
        }
        i = i + 1;
    }
    assert(lv.take(ls@.len() as int) == lv);
    match serial {
        Some(s) => {
            assert(keep =~= (|row: (Seq<char>, Seq<char>, Seq<char>)| row.0 == s@));
        },
        None => {
            assert(forward_rows(lv).filter(keep) =~= forward_rows(lv)) by {
                crate::text::lemma_filter_all_true(forward_rows(lv), keep);
            }
        },
    }
    r
}

/// The answer to a `forward:tcp:0;...` request: the port the server chose.
pub fn parse_forward_port(port_str: &str) -> (r: Result<u16, AdbError>)
    ensures
        match parse_unsigned(trim(port_str@), u16::MAX as int) {
            Some(p) => r == Ok::<u16, AdbError>(p as u16),
            None => r matches Err(AdbError::Parse(m)) && m@ == "cannot parse port: "@
                + port_str@,
        },
{
    let c = chars_of(port_str);
    let t = trim_chars(c.as_slice());
    match parse_u16(t.as_slice()) {
        Some(p) => Ok(p),
        None => Err(AdbError::Parse(prefixed("cannot parse port: ", port_str))),
    }
}

/// The rows `remote local` of a `reverse:list-forward` answer: three or more
/// words give words 1 and 2, exactly two words give words 0 and 1.
pub open spec fn reverse_rows(ls: Seq<Seq<char>>) -> Seq<(Seq<char>, Seq<char>)>
    decreases ls.len(),
{
    if ls.len() == 0 {
        seq![]
    } else {
        let prev = reverse_rows(ls.drop_last());
        let w = words(ls.last());
        if ls.last().len() == 0 {
            prev
        } else if w.len() >= 3 {
            prev.push((w[1], w[2]))
        } else if w.len() == 2 {
            prev.push((w[0], w[1]))
        } else {
            prev
        }
    }
}

/// The entries of a `reverse:list-forward` answer.
pub fn parse_reverse_list(data: &str) -> (r: Vec<ReverseEntry>)
    ensures
        r@.len() == reverse_rows(lines(data@)).len(),
        forall|i: int|
            0 <= i < r@.len() ==> (#[trigger] r@[i]).remote@ == reverse_rows(lines(data@))[i].0
                && r@[i].local@ == reverse_rows(lines(data@))[i].1,
{
    let c = chars_of(data);
    let ls = lines_of(c.as_slice());
    let ghost lv = views(ls@);
    let mut r: Vec<ReverseEntry> = Vec::new();
    let mut i: usize = 0;
    while i < ls.len()
        invariant
            i <= ls@.len(),
            lv == views(ls@),
            r@.len() == reverse_rows(lv.take(i as int)).len(),
            forall|k: int|
                0 <= k < r@.len() ==> (#[trigger] r@[k]).remote@ == reverse_rows(
                    lv.take(i as int),
                )[k].0 && r@[k].local@ == reverse_rows(lv.take(i as int))[k].1,
        decreases ls@.len() - i,
    {
        assert(lv.take(i + 1).drop_last() == lv.take(i as int));
        assert(lv.take(i + 1).last() == ls@[i as int]@);
        let w = words_of(ls[i].as_slice());
        if ls[i].len() > 0 && w.len() >= 3 {
            assert(views(w@)[1] == w@[1]@ && views(w@)[2] == w@[2]@);
            r.push(ReverseEntry { remote: string_of(w[1].as_slice()), local: string_of(w[2].as_slice()) });
        } else if ls[i].len() > 0 && w.len() == 2 {
            assert(views(w@)[0] == w@[0]@ && views(w@)[1] == w@[1]@);
            r.push(ReverseEntry { remote: string_of(w[0].as_slice()), local: string_of(w[1].as_slice()) });
        }
        i = i + 1;
    }
    assert(lv.take(ls@.len() as int) == lv);
    r
}

/// `reverse:forward:tcp:{remote};tcp:{local}`.
pub fn reverse_request(remote_port: u16, local_port: u16) -> (r: String)
    ensures
        r@ == "reverse:forward:tcp:"@ + nat_to_dec(remote_port as nat) + ";tcp:"@ + nat_to_dec(
            local_port as nat,
        ),
{
    let mut v = chars_of("reverse:forward:tcp:");
    push_nat(&mut v, remote_port as u64);
    push_str(&mut v, ";tcp:");
    push_nat(&mut v, local_port as u64);
    string_of(v.as_slice())
}

/// `reverse:killforward:tcp:{remote}`.
pub fn reverse_remove_request(remote_port: u16) -> (r: String)
    ensures
        r@ == "reverse:killforward:tcp:"@ + nat_to_dec(remote_port as nat),
{
    let mut v = chars_of("reverse:killforward:tcp:");
    push_nat(&mut v, remote_port as u64);
    string_of(v.as_slice())
}

/// `tcpip:{port}`.
pub fn tcpip_request(port: u16) -> (r: String)
    ensures
        r@ == "tcpip:"@ + nat_to_dec(port as nat),
{
    let mut v = chars_of("tcpip:");
    push_nat(&mut v, port as u64);
    string_of(v.as_slice())
}

/// `reboot:` for a normal reboot, `reboot:{mode}` otherwise.
pub fn reboot_request(mode: RebootMode) -> (r: String)
    ensures
        r@ == "reboot:"@ + reboot_mode_name(mode),
{
    match mode {
        RebootMode::Normal => {
            let v = chars_of("reboot:");
            proof {
                reveal_strlit("");
            }
            assert(v@ =~= "reboot:"@ + reboot_mode_name(mode));
            string_of(v.as_slice())
        },
        other => prefixed("reboot:", other.as_str()),
    }
}

// ---- files ----

/// The shell text `'{path}'` following `prefix`, then `suffix`.
fn quoted_path_command(prefix: &str, path: &str, suffix: &str) -> (r: String)
    ensures
        r@ == prefix@ + "'"@ + path@ + "'"@ + suffix@,
{
    let mut v = chars_of(prefix);
    push_str(&mut v, "'");
    push_str(&mut v, path);
    push_str(&mut v, "'");
    push_str(&mut v, suffix);
    string_of(v.as_slice())
}

/// `[ -e '{path}' ] && echo 1 || echo 0`.
pub fn exists_command(path: &str) -> (r: String)
    ensures
        r@ == "[ -e "@ + "'"@ + path@ + "'"@ + " ] && echo 1 || echo 0"@,
{
    quoted_path_command("[ -e ", path, " ] && echo 1 || echo 0")
}

/// Whether the answer of `exists_command` says the path exists.
pub fn exists_from_output(output: &str) -> (b: bool)
    ensures
        b == (trim(output@) == "1"@),
{
    let c = chars_of(output);
    let t = trim_chars(c.as_slice());
    chars_eq(t.as_slice(), chars_of("1").as_slice())
}

/// `rm -f '{path}'`.
pub fn remove_command(path: &str) -> (r: String)
    ensures
        r@ == "rm -f "@ + "'"@ + path@ + "'"@ + ""@,
{
    quoted_path_command("rm -f ", path, "")
}

/// `rm -rf '{path}'`.
pub fn rmtree_command(path: &str) -> (r: String)
    ensures
        r@ == "rm -rf "@ + "'"@ + path@ + "'"@ + ""@,
{
    quoted_path_command("rm -rf ", path, "")
}

// ---- screen & network ----

/// The pattern that finds `WIDTHxHEIGHT` in `wm size` output.
pub const WINDOW_SIZE_PATTERN: &'static str = r"(\d+)x(\d+)";

/// The screen size from `wm size` output (the first `WxH` found).
pub fn parse_window_size(output: &str) -> (r: Result<ScreenSize, AdbError>)
    ensures
        match regex_first_groups(WINDOW_SIZE_PATTERN@, output@) {
            Some((w, h)) => match (
                parse_unsigned(w, u32::MAX as int),
                parse_unsigned(h, u32::MAX as int),
            ) {
                (Some(wv), Some(hv)) => r matches Ok(s) && s.width == wv && s.height == hv,
                (None, _) => r matches Err(AdbError::Parse(m)) && m@ == "width"@,
                (Some(_), None) => r matches Err(AdbError::Parse(m)) && m@ == "height"@,
            },
            None => r matches Err(AdbError::Parse(m)) && m@ == "cannot parse wm size output: "@
                + output@,
        },
{
    match regex_groups(WINDOW_SIZE_PATTERN, output) {
        Some((w, h)) => {
            let wc = chars_of(w.as_str());
            let width = match parse_u32(wc.as_slice()) {
                Some(v) => v,
                None => {
                    return Err(AdbError::Parse(string_of(chars_of("width").as_slice())));
                },
            };
            let hc = chars_of(h.as_str());
            let height = match parse_u32(hc.as_slice()) {
                Some(v) => v,
                None => {
                    return Err(AdbError::Parse(string_of(chars_of("height").as_slice())));
                },
            };
            Ok(ScreenSize { width, height })
        },
        None => Err(AdbError::Parse(prefixed("cannot parse wm size output: ", output))),
    }
}

/// The value of the last ASCII digit in `s`.
pub open spec fn last_digit(s: Seq<char>) -> Option<int>
    decreases s.len(),
{
    if s.len() == 0 {
        None
    } else if is_digit(s.last()) {
        Some((s.last() as u32) - 48)
    } else {
        last_digit(s.drop_last())
    }
}

/// The screen rotation (0 to 3) from `SurfaceOrientation` output: the last
/// digit in it, or 0 when there is none.
pub fn parse_rotation(output: &str) -> (r: u8)
    ensures
        r == match last_digit(output@) {
            Some(d) => d,
            None => 0,
        },
{
    let c = chars_of(output);
    let mut j = c.len();
    assert(c@.subrange(0, j as int) == c@);
    while j > 0
        invariant
            j <= c@.len(),
            c@ == output@,
            last_digit(c@) == last_digit(c@.subrange(0, j as int)),
        decreases j,
    {
        let ch = c[j - 1];
        let u = ch as u32;
        assert(c@.subrange(0, j as int).last() == ch);
        if 48 <= u && u <= 57 {
            assert(last_digit(c@.subrange(0, j as int)) == Some((ch as u32) - 48));
            return (u - 48) as u8;
        }
        assert(c@.subrange(0, j as int).drop_last() == c@.subrange(0, j - 1));
        j = j - 1;
    }
    0
}

/// Whether `dumpsys power` output says the device is awake.
pub fn screen_on_from_output(output: &str) -> (b: bool)
    ensures
        b == contains(output@, "Awake"@),
{
    let c = chars_of(output);
    contains_chars(c.as_slice(), chars_of("Awake").as_slice())
}

/// Whether the power key must be pressed to bring the screen to the wanted state.
pub fn needs_power_key(currently_on: bool, want_on: bool) -> (b: bool)
    ensures
        b == (currently_on != want_on),
{
    currently_on != want_on
}

/// The power key code.
pub const KEYCODE_POWER: i32 = 26;

/// The pattern that finds an IPv4 address after `inet `.
pub const WLAN_IP_PATTERN: &'static str = r"inet (\d+\.\d+\.\d+\.\d+)";

/// The IPv4 address from `ip addr show wlan0` output.
pub fn parse_wlan_ip(output: &str) -> (r: Result<String, AdbError>)
    ensures
        match regex_first_groups(WLAN_IP_PATTERN@, output@) {
            Some((ip, _)) => r matches Ok(s) && s@ == ip,
            None => r matches Err(AdbError::ShellError(m)) && m@ == "no wlan0 IP found"@,
        },
{
    match regex_groups(WLAN_IP_PATTERN, output) {
        Some((ip, _)) => Ok(ip),
        None => Err(AdbError::ShellError(string_of(chars_of("no wlan0 IP found").as_slice()))),
    }
}

/// `logcat {filter}` or `logcat`.
pub fn logcat_command(filter: Option<&str>) -> (r: String)
    ensures
        r@ == match filter {
            Some(f) => "logcat "@ + f@,
            None => "logcat"@,
        },
{
    match filter {
        Some(f) => prefixed("logcat ", f),
        None => string_of(chars_of("logcat").as_slice()),
    }
}

/// The features of a `features` answer: comma-separated, trimmed, non-empty.
pub open spec fn feature_list(s: Seq<char>) -> Seq<Seq<char>> {
    crate::text::split_on(s, ',').map_values(|p: Seq<char>| trim(p)).filter(
        |p: Seq<char>| p.len() > 0,
    )
}

/// The feature list of a `features` answer.
pub fn parse_features(s: &str) -> (r: Vec<String>)
    ensures
        r@.map_values(|x: String| x@) == feature_list(s@),
{
    let c = chars_of(s);
    let parts = crate::text::split_chars(c.as_slice(), ',');
    let ghost pv = views(parts@);
    let ghost tp = pv.map_values(|p: Seq<char>| trim(p));
    let ghost keep = |p: Seq<char>| p.len() > 0;
    let mut r: Vec<String> = Vec::new();
    let mut i: usize = 0;
    while i < parts.len()
        invariant
            i <= parts@.len(),
            pv == views(parts@),
            tp == pv.map_values(|p: Seq<char>| trim(p)),
            keep == (|p: Seq<char>| p.len() > 0),
            r@.map_values(|x: String| x@) == tp.take(i as int).filter(keep),
        decreases parts@.len() - i,
    {
        let t = trim_chars(parts[i].as_slice());
        assert(tp[i as int] == t@);
        assert(tp.take(i + 1) == tp.take(i as int).push(t@));
        proof {
            crate::text::lemma_filter_push(tp.take(i as int), keep, t@);
        }
        if t.len() > 0 {
            r.push(string_of(t.as_slice()));
            assert(r@.map_values(|x: String| x@) =~= tp.take(i + 1).filter(keep));
        }
        i = i + 1;
    }
    assert(tp.take(parts@.len() as int) == tp);
    r
}

} // verus!
