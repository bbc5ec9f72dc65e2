//! Text the application shows: byte counts with thousands separators,
//! generated keys, and the capped log of timestamped messages; and the state
//! of the window's animation as the worker's reports come in.

use crate::primitives::{push_char, random_key_bytes};
use vstd::prelude::*;
use vstd::string::StringExecFns;

verus! {

/// The character of decimal digit `d`.
pub open spec fn digit_char(d: int) -> char {
    ((48 + d) as u8) as char
}

/// The decimal digits of `n`, most significant first.
pub open spec fn decimal(n: nat) -> Seq<char>
    decreases n,
{
    if n < 10 {
        seq![digit_char(n as int)]
    } else {
        decimal(n / 10).push(digit_char((n % 10) as int))
    }
}

/// `s` with a comma before each group of three characters counted from
/// the right, except at the very start.
pub open spec fn grouped(s: Seq<char>) -> Seq<char>
    decreases s.len(),
{
    if s.len() <= 3 {
        s
    } else {
        grouped(s.subrange(0, s.len() - 3)) + seq![','] + s.subrange(s.len() - 3, s.len() as int)
    }
}

/// Appends the decimal digits of `n` to `out`.
fn push_decimal(n: usize, out: &mut Vec<char>)
    ensures
        final(out)@ == old(out)@ + decimal(n as nat),
    decreases n,
{
    if n >= 10 {
        push_decimal(n / 10, out);
    }
    out.push(((48 + n % 10) as u8) as char);
    proof {
        if n >= 10 {
            assert(decimal(n as nat) == decimal((n / 10) as nat).push(digit_char((n % 10) as int)));
        }
    }
    assert(out@ =~= old(out)@ + decimal(n as nat));
}

/// Appends `grouped(digits[..len])` to `out`.
fn push_grouped(digits: &Vec<char>, len: usize, out: &mut String)
    requires
        len <= digits@.len(),
    ensures
        final(out)@ == old(out)@ + grouped(digits@.subrange(0, len as int)),
    decreases len,
{
    let start: usize = if len <= 3 {
        0
    } else {
        push_grouped(digits, len - 3, out);
        push_char(out, ',');
        len - 3
    };
    let ghost before = out@;
    let mut i = start;
    while i < len
        invariant
            start <= i <= len,
            len <= digits@.len(),
            out@ == before + digits@.subrange(start as int, i as int),
        decreases len - i,
    {
        push_char(out, digits[i]);
        assert(digits@.subrange(start as int, i + 1) =~= digits@.subrange(start as int, i as int).push(digits@[i as int]));
        i += 1;
    }
    proof {
        let s = digits@.subrange(0, len as int);
        if len > 3 {
            assert(s.subrange(0, s.len() - 3) =~= digits@.subrange(0, len - 3));
            assert(s.subrange(s.len() - 3, s.len() as int) =~= digits@.subrange(len - 3, len as int));
        } else {
            assert(digits@.subrange(0, len as int) =~= s);
        }
    }
}

/// `n` in decimal, with a comma between each group of three digits.
pub fn format_number(n: usize) -> (text: String)
    ensures
        text@ == grouped(decimal(n as nat)),
{
    let mut digits: Vec<char> = Vec::new();
    push_decimal(n, &mut digits);
    assert(digits@ =~= decimal(n as nat));
    let mut text = String::new();
    push_grouped(&digits, digits.len(), &mut text);
    assert(digits@.subrange(0, digits@.len() as int) =~= digits@);
    assert(text@ =~= grouped(decimal(n as nat)));
    text
}

/// Grouping a string of `len >= 1` characters, none of them a comma: the
/// result is `len + (len - 1) / 3` long; counting places from its right end
/// from 0, place `r` is a comma exactly when `r % 4 == 3`, and otherwise
/// holds the character at place `r - r / 4` from the right of the string.
/// So the commas, taken out, leave the string, every group but the first
/// has three characters, and the first has one to three.
pub proof fn lemma_grouped_places(s: Seq<char>)
    requires
        s.len() >= 1,
        forall|i: int| 0 <= i < s.len() ==> s[i] != ',',
    ensures
        grouped(s).len() == s.len() + (s.len() - 1) / 3,
        forall|r: int|
            0 <= r < grouped(s).len() ==> (#[trigger] grouped(s)[grouped(s).len() - 1 - r] == ','
                <==> r % 4 == 3),
        forall|r: int|
            0 <= r < grouped(s).len() && r % 4 != 3 ==> #[trigger] grouped(s)[grouped(s).len() - 1 - r]
                == s[s.len() - 1 - (r - r / 4)],
    decreases s.len(),
{
    let g = grouped(s);
    let n = s.len() as int;
    if n > 3 {
        let head = s.subrange(0, n - 3);
        let tail = s.subrange(n - 3, n);
        lemma_grouped_places(head);
        let gh = grouped(head);
        assert(g == gh + seq![','] + tail);
        assert forall|r: int| 0 <= r < g.len() implies (#[trigger] g[g.len() - 1 - r] == ',' <==> r
            % 4 == 3) && (r % 4 != 3 ==> g[g.len() - 1 - r] == s[n - 1 - (r - r / 4)]) by {
            if r < 3 {
                assert(g[g.len() - 1 - r] == tail[2 - r]);
            } else if r == 3 {
                assert(g[g.len() - 1 - r] == ',');
            } else {
                let r2 = r - 4;
                assert(g[g.len() - 1 - r] == gh[gh.len() - 1 - r2]);
                assert(r % 4 == r2 % 4 && r / 4 == r2 / 4 + 1);
                if r2 % 4 != 3 {
                    assert(gh[gh.len() - 1 - r2] == head[head.len() - 1 - (r2 - r2 / 4)]);
                }
            }
        }
    } else {
        assert forall|r: int| 0 <= r < g.len() implies (#[trigger] g[g.len() - 1 - r] == ',' <==> r
            % 4 == 3) && (r % 4 != 3 ==> g[g.len() - 1 - r] == s[n - 1 - (r - r / 4)]) by {
            assert(r / 4 == 0 && r % 4 == r);
        }
    }
}

/// Every decimal digit of `n` is one of `0`..`9`, never a comma, and `n`
/// has at least one.
pub proof fn lemma_decimal_digits(n: nat)
    ensures
        decimal(n).len() >= 1,
        forall|i: int| 0 <= i < decimal(n).len() ==> '0' <= #[trigger] decimal(n)[i] <= '9',
    decreases n,
{
    if n >= 10 {
        lemma_decimal_digits(n / 10);
    }
}

/// The number a string of decimal digits stands for.
pub open spec fn digits_value(s: Seq<char>) -> int
    decreases s.len(),
{
    if s.len() == 0 {
        0
    } else {
        digits_value(s.drop_last()) * 10 + (s.last() as int - '0' as int)
    }
}

/// The decimal digits of `n` stand for `n`, and the first is not `0`
/// unless `n` is 0.
pub proof fn lemma_decimal_value(n: nat)
    ensures
        digits_value(decimal(n)) == n,
        n > 0 ==> decimal(n)[0] != '0',
    decreases n,
{
    let d = (n % 10) as int;
    assert(digit_char(d) as int == 48 + d);
    assert(decimal(n).last() == digit_char(d));
    assert(digits_value(decimal(n)) == digits_value(decimal(n).drop_last()) * 10 + d);
    assert(n == (n / 10) * 10 + d);
    if n >= 10 {
        lemma_decimal_value(n / 10);
        lemma_decimal_digits(n / 10);
        assert(decimal(n).drop_last() =~= decimal(n / 10));
        assert(decimal(n)[0] == decimal(n / 10)[0]);
    } else {
        assert(decimal(n).drop_last() =~= Seq::<char>::empty());
    }
}

/// The text `format_number` gives for `n`: its decimal digits, read from
/// the right, with a comma after every third; so taking the commas out
/// leaves the decimal text of `n`, every group but the first has three
/// digits, and the first has one to three.
pub proof fn lemma_format_number_groups(n: nat)
    ensures
        ({
            let d = decimal(n);
            let g = grouped(d);
            &&& digits_value(d) == n
            &&& (n > 0 ==> d[0] != '0')
            &&& forall|i: int| 0 <= i < d.len() ==> '0' <= #[trigger] d[i] <= '9'
            &&& g.len() == d.len() + (d.len() - 1) / 3
            &&& forall|r: int|
                0 <= r < g.len() ==> (#[trigger] g[g.len() - 1 - r] == ',' <==> r % 4 == 3)
            &&& forall|r: int|
                0 <= r < g.len() && r % 4 != 3 ==> #[trigger] g[g.len() - 1 - r] == d[d.len() - 1 - (r
                    - r / 4)]
        }),
{
    lemma_decimal_digits(n);
    lemma_decimal_value(n);
    lemma_grouped_places(decimal(n));
}

/// The lowercase hexadecimal character of a value below 16.
pub open spec fn hex_char(v: int) -> char {
    if v < 10 {
        ((48 + v) as u8) as char
    } else {
        ((87 + v) as u8) as char
    }
}

/// The text of a key made from the first `k` of its bytes: two lowercase
/// hexadecimal digits per byte, with a dash after every fourth byte but the
/// last.
pub open spec fn key_text(bytes: Seq<u8>, k: int) -> Seq<char>
    decreases k,
{
    if k <= 0 {
        seq![]
    } else {
        let b = bytes[k - 1] as int;
        let pair = key_text(bytes, k - 1) + seq![hex_char(b / 16), hex_char(b % 16)];
        if (k - 1) % 4 == 3 && k - 1 < 15 {
            pair.push('-')
        } else {
            pair
        }
    }
}

fn hex_digit(v: u8) -> (c: char)
    requires
        v < 16,
    ensures
        c == hex_char(v as int),
{
    if v < 10 {
        ((48 + v) as u8) as char
    } else {
        ((87 + v) as u8) as char
    }
}

/// The key text of sixteen bytes: `xxxxxxxx-xxxxxxxx-xxxxxxxx-xxxxxxxx`.
pub fn format_key(bytes: &[u8; 16]) -> (key: String)
    ensures
        key@ == key_text(bytes@, 16),
{
    let mut key = String::new();
    let mut i: usize = 0;
    while i < 16
        invariant
            i <= 16,
            key@ == key_text(bytes@, i as int),
        decreases 16 - i,
    {
        let byte = bytes[i];
        assert(byte >> 4 == byte / 16 && byte & 15 == byte % 16) by (bit_vector);
        push_char(&mut key, hex_digit(byte >> 4));
        push_char(&mut key, hex_digit(byte & 15));
        if i % 4 == 3 && i < 15 {
            push_char(&mut key, '-');
        }
        i += 1;
    }
    key
}

/// A new random key in the key text format.
pub fn generate_random_key() -> (key: String)
    ensures
        exists|bytes: Seq<u8>| bytes.len() == 16 && key@ == key_text(bytes, 16),
{
    let bytes = random_key_bytes();
    let key = format_key(&bytes);
    assert(bytes@.len() == 16 && key@ == key_text(bytes@, 16));
    key
}

/// The most log lines kept.
pub const LOG_CAPACITY: usize = 100;

/// The texts of a list of strings.
pub open spec fn texts(v: Seq<String>) -> Seq<Seq<char>> {
    v.map_values(|s: String| s@)
}

/// The log line for `msg` at `timestamp`: `[timestamp] msg`.
pub open spec fn log_line(timestamp: Seq<char>, msg: Seq<char>) -> Seq<char> {
    "["@ + timestamp + "] "@ + msg
}

/// Adds `[timestamp] msg` to the log, dropping the oldest line once the log
/// holds more than `LOG_CAPACITY` lines.
pub fn push_log(messages: &mut Vec<String>, timestamp: &str, msg: &str)
    ensures
        ({
            let added = texts(old(messages)@).push(log_line(timestamp@, msg@));
            texts(final(messages)@) == if added.len() > LOG_CAPACITY {
                added.drop_first()
            } else {
                added
            }
        }),
{
    let mut line = String::new();
    line.append("[");
    line.append(timestamp);
    line.append("] ");
    line.append(msg);
    let ghost added = texts(messages@).push(log_line(timestamp@, msg@));
    messages.push(line);
    assert(texts(messages@) =~= added);
    if messages.len() > LOG_CAPACITY {
        messages.remove(0);
        assert(texts(messages@) =~= added.drop_first());
    }
}


/// Whether an action on the files may start: a key and an input file are
/// given, the output folder is valid, and no other action is running.
pub fn action_enabled(key: &str, file_path: &str, output_folder_valid: bool, processing: bool) -> (enabled: bool)
    ensures
        enabled == (key@.len() > 0 && file_path@.len() > 0 && output_folder_valid && !processing),
{
    !key.is_empty() && !file_path.is_empty() && output_folder_valid && !processing
}

/// The name of the encrypted file written for an input whose name without
/// its extension is `base`.
pub fn encrypted_file_name(base: &str) -> (name: String)
    ensures
        name@ == base@ + ".haruhi"@,
{
    let mut name = String::new();
    name.append(base);
    name.append(".haruhi");
    name
}

/// `s` ends with `suffix`.
pub open spec fn ends_with(s: Seq<u8>, suffix: Seq<u8>) -> bool {
    suffix.len() <= s.len() && s.subrange(s.len() - suffix.len(), s.len() as int) == suffix
}

/// Whether the bytes of `s` end with the bytes of `suffix`.
fn str_ends_with(s: &str, suffix: &str) -> (r: bool)
    ensures
        r == ends_with(vstd::utf8::encode_utf8(s@), vstd::utf8::encode_utf8(suffix@)),
{
    let a = s.as_bytes();
    let b = suffix.as_bytes();
    if b.len() > a.len() {
        return false;
    }
    let len = a.len();
    let start = len - b.len();
    let mut i: usize = 0;
    while i < b.len()
        invariant
            a@ == vstd::utf8::encode_utf8(s@),
            b@ == vstd::utf8::encode_utf8(suffix@),
            len == a@.len(),
            start == a@.len() - b@.len(),
            b@.len() <= a@.len(),
            i <= b@.len(),
            forall|t: int| 0 <= t < i ==> a@[start + t] == b@[t],
        decreases b@.len() - i,
    {
        if a[start + i] != b[i] {
            assert(a@.subrange(start as int, a@.len() as int)[i as int] != b@[i as int]);
            return false;
        }
        i += 1;
    }
    assert(a@.subrange(start as int, a@.len() as int) =~= b@);
    true
}

/// The name of the file that decrypting `file_path` writes: the stored
/// extension after the input's name without its extension (`stem`) when
/// the input's name ends in `.haruhi`, and after `output` otherwise or when
/// there is no stem.
pub fn decrypted_file_name(file_path: &str, stem: Option<&str>, ext: &str) -> (name: String)
    ensures
        name@ == (if ends_with(vstd::utf8::encode_utf8(file_path@), vstd::utf8::encode_utf8(".haruhi"@)) {
            match stem {
                Some(s) => s@,
                None => "output"@,
            }
        } else {
            "output"@
        }) + "."@ + ext@,
{
    let base: &str = if str_ends_with(file_path, ".haruhi") {
        match stem {
            Some(s) => s,
            None => "output",
        }
    } else {
        "output"
    };
    let mut name = String::new();
    name.append(base);
    name.append(".");
    name.append(ext);
    name
}

/// The window's animation: waiting, working on a file, or finished.
#[derive(PartialEq, Eq, Structural, Clone, Copy, Debug)]
pub enum AnimState {
    Idle,
    Processing,
    Done,
}

/// The kind of a report the worker sends while it works on a file.
#[derive(PartialEq, Eq, Structural, Clone, Copy, Debug)]
pub enum ProgressKind {
    Log,
    Percent,
    Done,
    Error,
    Bytes,
}

/// The animation after a report: a finished file ends it, an error stops
/// it, and any other report leaves it as it was.
pub open spec fn anim_after(state: AnimState, report: ProgressKind) -> AnimState {
    match report {
        ProgressKind::Done => AnimState::Done,
        ProgressKind::Error => AnimState::Idle,
        _ => state,
    }
}

/// The animation after a report comes in.
pub fn anim_state_after(state: AnimState, report: ProgressKind) -> (next: AnimState)
    ensures
        next == anim_after(state, report),
{
    match report {
        ProgressKind::Done => AnimState::Done,
        ProgressKind::Error => AnimState::Idle,
        _ => state,
    }
}

/// The animation once the reports at hand have been taken in: a full
/// progress bar while a file is being worked on means it is finished.
pub fn settle_anim_state(state: AnimState, progress_full: bool) -> (next: AnimState)
    ensures
        next == (if progress_full && state == AnimState::Processing {
            AnimState::Done
        } else {
            state
        }),
{
    if progress_full && state == AnimState::Processing {
        AnimState::Done
    } else {
        state
    }
}

} // verus!
