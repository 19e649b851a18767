use vstd::prelude::*;
use crate::standard_error::StandardError;
use vstd::utf8::encode_utf8;

verus! {

/// Decoder for the run-length encoded pattern format: a header line
/// `x = <width>, y = <height>, ...`, comment lines starting with `#`, and
/// data made of `<count><tag>` items.
pub struct Rle {}

/// The lines of `s`, as `str::lines` cuts them.
pub uninterp spec fn lines_of(s: Seq<char>) -> Seq<Seq<char>>;

/// The two groups that `pattern` captures in its first match in `text`.
pub uninterp spec fn regex_pair(pattern: Seq<char>, text: Seq<char>) -> Option<(Seq<char>, Seq<char>)>;

/// Relies on str::lines: the lines of `s`, without their line endings.
#[verifier::external_body]
fn text_lines(s: &str) -> (r: Vec<String>)
    ensures
        r@.len() == lines_of(s@).len(),
        forall|i: int| 0 <= i < r@.len() ==> #[trigger] r@[i]@ == lines_of(s@)[i],
{
    s.lines().map(|l| l.to_string()).collect()
}

/// Relies on regex::Regex::new and regex::Regex::captures: compiles
/// `pattern` and returns the text of its first two groups in the first match
/// in `text`; `None` where the pattern does not compile, does not match, or a
/// group takes no part in the match.
#[verifier::external_body]
fn capture_pair(pattern: &str, text: &str) -> (r: Option<(String, String)>)
    ensures
        match r {
            Some((a, b)) => regex_pair(pattern@, text@) == Some((a@, b@)),
            None => regex_pair(pattern@, text@) is None,
        },
{
    let re = regex::Regex::new(pattern).ok()?;
    let caps = re.captures(text)?;
    Some((caps.get(1)?.as_str().to_string(), caps.get(2)?.as_str().to_string()))
}

pub open spec fn is_digit(c: u8) -> bool {
    48 <= c <= 57
}

pub open spec fn all_digits(s: Seq<u8>) -> bool {
    forall|i: int| 0 <= i < s.len() ==> is_digit(#[trigger] s[i])
}

/// The number that a run of decimal digits writes.
pub open spec fn decimal_value(s: Seq<u8>) -> nat
    decreases s.len(),
{
    if s.len() == 0 {
        0
    } else {
        decimal_value(s.drop_last()) * 10 + (s.last() - 48) as nat
    }
}

/// A run of digits as a `usize`: `None` when it is empty or too large, as
/// `usize::from_str` has it.
pub open spec fn decimal_usize(s: Seq<u8>) -> Option<usize> {
    if s.len() > 0 && decimal_value(s) <= usize::MAX {
        Some(decimal_value(s) as usize)
    } else {
        None
    }
}

proof fn lemma_decimal_prefix(s: Seq<u8>, k: int)
    requires
        0 <= k <= s.len(),
        all_digits(s),
    ensures
        decimal_value(s.subrange(0, k)) <= decimal_value(s),
    decreases s.len() - k,
{
    if k < s.len() {
        lemma_decimal_prefix(s, k + 1);
        assert(s.subrange(0, k + 1).drop_last() =~= s.subrange(0, k));
    } else {
        assert(s.subrange(0, k) =~= s);
    }
}

/// Reads a run of ASCII digits as a number; `None` when the run is empty or
/// the number does not fit in a `usize`.
pub fn parse_decimal(digits: &[u8]) -> (r: Option<usize>)
    requires
        all_digits(digits@),
    ensures
        r == decimal_usize(digits@),
{
    if digits.len() == 0 {
        return None;
    }
    let mut value: usize = 0;
    let mut i: usize = 0;
    while i < digits.len()
        invariant
            all_digits(digits@),
            i <= digits@.len(),
            value == decimal_value(digits@.subrange(0, i as int)),
        decreases digits@.len() - i,
    {
        let d = digits[i];
        proof {
            assert(is_digit(digits@[i as int]));
            assert(digits@.subrange(0, i + 1).drop_last() =~= digits@.subrange(0, i as int));
        }
        let next = match value.checked_mul(10) {
            Some(v) => v.checked_add((d - 48) as usize),
            None => None,
        };
        match next {
            Some(v) => {
                value = v;
            },
            None => {
                proof {
                    lemma_decimal_prefix(digits@, i + 1);
                }
                return None;
            },
        }
        i += 1;
    }
    proof {
        assert(digits@.subrange(0, digits@.len() as int) =~= digits@);
    }
    Some(value)
}

/// Whether `s` starts with `prefix`.
pub open spec fn has_prefix(s: Seq<char>, prefix: Seq<char>) -> bool {
    prefix.len() <= s.len() && s.subrange(0, prefix.len() as int) == prefix
}

fn starts_with(s: &str, prefix: &str) -> (r: bool)
    ensures
        r == has_prefix(s@, prefix@),
{
    let n = prefix.unicode_len();
    if s.unicode_len() < n {
        return false;
    }
    let mut i: usize = 0;
    while i < n
        invariant
            n == prefix@.len(),
            n <= s@.len(),
            i <= n,
            forall|k: int| 0 <= k < i ==> s@[k] == prefix@[k],
        decreases n - i,
    {
        if s.get_char(i) != prefix.get_char(i) {
            return false;
        }
        i += 1;
    }
    proof {
        assert(s@.subrange(0, n as int) =~= prefix@);
    }
    true
}

/// The header line and the data of a list of lines: comment lines (`#`)
/// are skipped, the last line starting with `x = ` is the header, and the
/// other lines are joined into the data.
pub open spec fn split_spec(lines: Seq<Seq<char>>) -> (Seq<char>, Seq<char>)
    decreases lines.len(),
{
    if lines.len() == 0 {
        (Seq::empty(), Seq::empty())
    } else {
        let (setting, data) = split_spec(lines.drop_last());
        let line = lines.last();
        if has_prefix(line, seq!['#']) {
            (setting, data)
        } else if has_prefix(line, seq!['x', ' ', '=', ' ']) {
            (line, data)
        } else {
            (setting, data + line)
        }
    }
}

/// Splits lines into the header line and the data; an error when either is
/// missing (empty).
pub fn split_lines(lines: &Vec<String>) -> (r: Result<(String, String), StandardError>)
    ensures
        ({
            let (setting, data) = split_spec(lines@.map_values(|l: String| l@));
            match r {
                Ok((s, d)) => setting.len() > 0 && data.len() > 0 && s@ == setting && d@ == data,
                Err(e) => (setting.len() == 0 || data.len() == 0) && e.spec_details() == "lack"@,
            }
        }),
{
    let ghost views = lines@.map_values(|l: String| l@);
    let mut setting = String::new();
    let mut data = String::new();
    let mut i: usize = 0;
    while i < lines.len()
        invariant
            views == lines@.map_values(|l: String| l@),
            i <= lines@.len(),
            (setting@, data@) == split_spec(views.subrange(0, i as int)),
        decreases lines@.len() - i,
    {
        let line = lines[i].as_str();
        proof {
            assert(views.subrange(0, i + 1).drop_last() =~= views.subrange(0, i as int));
            assert(views.subrange(0, i + 1).last() == line@);
            reveal_strlit("#");
            reveal_strlit("x = ");
            assert("#"@ =~= seq!['#']);
            assert("x = "@ =~= seq!['x', ' ', '=', ' ']);
        }
        if starts_with(line, "#") {
        } else if starts_with(line, "x = ") {
            setting = line.to_string();
            proof {
                vstd::string::to_string_from_display_ensures_for_str(line, setting);
            }
        } else {
            data.append(line);
        }
        i += 1;
    }
    proof {
        assert(views.subrange(0, lines@.len() as int) =~= views);
    }
    if setting.as_str().unicode_len() == 0 || data.as_str().unicode_len() == 0 {
        return Err(StandardError::new("lack"));
    }
    Ok((setting, data))
}

/// Splits a pattern file into its header line and its data.
pub fn split(raw: String) -> (r: Result<(String, String), StandardError>)
    ensures
        ({
            let (setting, data) = split_spec(lines_of(raw@));
            match r {
                Ok((s, d)) => setting.len() > 0 && data.len() > 0 && s@ == setting && d@ == data,
                Err(e) => (setting.len() == 0 || data.len() == 0) && e.spec_details() == "lack"@,
            }
        }),
{
    let lines = text_lines(raw.as_str());
    proof {
        assert(lines@.map_values(|l: String| l@) =~= lines_of(raw@));
    }
    split_lines(&lines)
}

/// A run of digits as a `usize`, `None` where the text is not digits alone.
pub open spec fn digits_usize(s: Seq<u8>) -> Option<usize> {
    if all_digits(s) {
        decimal_usize(s)
    } else {
        None
    }
}

fn all_digit_bytes(s: &[u8]) -> (r: bool)
    ensures
        r == all_digits(s@),
{
    let mut i: usize = 0;
    while i < s.len()
        invariant
            i <= s@.len(),
            forall|k: int| 0 <= k < i ==> is_digit(#[trigger] s@[k]),
        decreases s@.len() - i,
    {
        if s[i] < 48 || s[i] > 57 {
            return false;
        }
        i += 1;
    }
    true
}

/// The width and height from the two numbers of a header line.
pub fn setting_from_fields(x: &str, y: &str) -> (r: Result<(usize, usize), StandardError>)
    ensures
        match (digits_usize(encode_utf8(x@)), digits_usize(encode_utf8(y@))) {
            (Some(w), Some(h)) => r matches Ok((rw, rh)) && rw == w && rh == h,
            _ => r is Err,
        },
{
    let xb = x.as_bytes();
    let yb = y.as_bytes();
    if !all_digit_bytes(xb) || !all_digit_bytes(yb) {
        return Err(StandardError::new("invalid"));
    }
    match (parse_decimal(xb), parse_decimal(yb)) {
        (Some(w), Some(h)) => Ok((w, h)),
        _ => Err(StandardError::new("invalid")),
    }
}

/// Reads the width and the height from a header line `x = <w>, y = <h>`.
pub fn parse_setting(line: String) -> (r: Result<(usize, usize), StandardError>)
    ensures
        match regex_pair("x = ([0-9]+), y = ([0-9]+)"@, line@) {
            None => r is Err,
            Some((a, b)) => match (digits_usize(encode_utf8(a)), digits_usize(encode_utf8(b))) {
                (Some(w), Some(h)) => r matches Ok((rw, rh)) && rw == w && rh == h,
                _ => r is Err,
            },
        },
{
    match capture_pair("x = ([0-9]+), y = ([0-9]+)", line.as_str()) {
        Some((x, y)) => setting_from_fields(x.as_str(), y.as_str()),
        None => Err(StandardError::new("invalid")),
    }
}

/// Whether a tag stands for live cells.
pub fn is_alive(c: u8) -> (r: bool)
    ensures
        r == (c == 111),
{
    c == 111
}

/// `n` dead cells.
pub open spec fn falses(n: int) -> Seq<bool> {
    Seq::new(n as nat, |i: int| false)
}

/// The count written before a tag; 1 where none is written, or where it is
/// too large.
pub open spec fn run_count(num: Seq<u8>) -> int {
    match decimal_usize(num) {
        Some(v) => v as int,
        None => 1,
    }
}

/// One byte of pattern data read by the decoder, whose state is the cells so
/// far, the digits of the pending count, the cells in the current line, and
/// whether `!` has ended the data. `b` and `o` add a run of dead or live
/// cells, `$` ends the line (filling it with dead cells) and the count before
/// it adds that many lines less one of dead cells; other bytes are ignored.
pub open spec fn decode_step(width: int, st: (Seq<bool>, Seq<u8>, int, bool), c: u8) -> (
    Seq<bool>,
    Seq<u8>,
    int,
    bool,
) {
    let (lives, num, col, done) = st;
    if done {
        st
    } else if is_digit(c) {
        (lives, num.push(c), col, false)
    } else if c == 33 {
        (lives, num, col, true)
    } else if c == 98 || c == 111 {
        let n = run_count(num);
        (lives + Seq::new(n as nat, |i: int| c == 111), Seq::empty(), col + n, false)
    } else if c == 36 {
        let n = run_count(num);
        let pad = if col < width {
            width - col
        } else {
            0
        };
        let skip = if n > 1 {
            width * (n - 1)
        } else {
            0
        };
        (lives + falses(pad) + falses(skip), Seq::empty(), 0, false)
    } else {
        st
    }
}

/// The decoder's state after the first `k` bytes of `data`.
pub open spec fn decode(width: int, start: Seq<bool>, data: Seq<u8>, k: int) -> (
    Seq<bool>,
    Seq<u8>,
    int,
    bool,
)
    decreases k,
{
    if k <= 0 {
        (start, Seq::empty(), 0, false)
    } else {
        decode_step(width, decode(width, start, data, k - 1), data[k - 1])
    }
}

/// The cells of a pattern of `raw_w` × `raw_h` cells with `margin` dead
/// cells added on each side, row-major, from its data; padded with dead cells
/// to the full size where the data stops short.
pub open spec fn parse_map_spec(raw_w: int, raw_h: int, margin: int, data: Seq<u8>) -> Seq<bool> {
    let w = raw_w + margin * 2;
    let h = raw_h + margin * 2;
    let total = w * h;
    let lives = decode(w, falses(w * margin + margin), data, data.len() as int).0;
    if lives.len() < total {
        lives + falses(total - lives.len())
    } else {
        lives
    }
}

fn push_falses(lives: &mut Vec<bool>, n: usize)
    ensures
        final(lives)@ == old(lives)@ + falses(n as int),
{
    let mut j: usize = 0;
    while j < n
        invariant
            j <= n,
            lives@ == old(lives)@ + falses(j as int),
        decreases n - j,
    {
        lives.push(false);
        proof {
            assert(falses(j + 1) =~= falses(j as int).push(false));
        }
        j += 1;
    }
}

/// Decodes pattern data into cells, row-major, with `margin` dead cells
/// around the pattern.
pub fn parse_map(raw_w: usize, raw_h: usize, margin: usize, life_map: String) -> (r: Vec<bool>)
    requires
        raw_w + margin * 2 <= usize::MAX,
        raw_h + margin * 2 <= usize::MAX,
        (raw_w + margin * 2) * (raw_h + margin * 2) <= usize::MAX,
    ensures
        r@ == parse_map_spec(raw_w as int, raw_h as int, margin as int, encode_utf8(life_map@)),
{
    let w = raw_w + margin * 2;
    let h = raw_h + margin * 2;
    let total = w * h;
    proof {
        assert(w * margin + margin <= w * h) by (nonlinear_arith)
            requires
                w == raw_w + margin * 2,
                h == raw_h + margin * 2,
                raw_w >= 0,
                raw_h >= 0,
                margin >= 0,
        ;
    }
    let data = life_map.as_str().as_bytes();
    let ghost bytes = encode_utf8(life_map@);
    let ghost start = falses((w * margin + margin) as int);
    let mut lives: Vec<bool> = Vec::new();
    push_falses(&mut lives, w * margin + margin);
    let mut num: Vec<u8> = Vec::new();
    let mut col: usize = 0;
    let mut i: usize = 0;
    proof {
        assert(lives@ =~= start);
    }
    while i < data.len()
        invariant
            data@ == bytes,
            i <= data@.len(),
            all_digits(num@),
            col <= lives@.len(),
            decode(w as int, start, bytes, i as int) == (lives@, num@, col as int, false),
        ensures
            decode(w as int, start, bytes, bytes.len() as int).0 == lives@,
        decreases data@.len() - i,
    {
        let c = data[i];
        let ghost before = (lives@, num@, col as int, false);
        if 48 <= c && c <= 57 {
            num.push(c);
        } else if c == 33 {
            proof {
                assert(bytes[i as int] == c);
                lemma_decode_done(w as int, start, bytes, i as int + 1);
            }
            break;
        } else if c == 98 || c == 111 {
            let n = match parse_decimal(num.as_slice()) {
                Some(v) => v,
                None => 1,
            };
            let doa = is_alive(c);
            let mut j: usize = 0;
            let ghost base = lives@;
            while j < n
                invariant
                    j <= n,
                    lives@ == base + Seq::new(j as nat, |k: int| doa),
                decreases n - j,
            {
                lives.push(doa);
                proof {
                    assert(Seq::new((j + 1) as nat, |k: int| doa) =~= Seq::new(j as nat, |k: int| doa).push(doa));
                }
                j += 1;
            }
            // The cells of this line are all in `lives`, whose length is a `usize`.
            let filled = lives.len();
            num = Vec::new();
            col = col + n;
            proof {
                assert(Seq::new(n as nat, |k: int| doa) =~= Seq::new(n as nat, |k: int| c == 111));
            }
        } else if c == 36 {
            let n = match parse_decimal(num.as_slice()) {
                Some(v) => v,
                None => 1,
            };
            if col < w {
                push_falses(&mut lives, w - col);
            }
            let ghost padded = lives@;
            if n > 1 {
                let mut k: usize = 1;
                while k < n
                    invariant
                        1 <= k <= n,
                        lives@ == padded + falses(w * (k - 1)),
                    decreases n - k,
                {
                    let ghost prev = lives@;
                    push_falses(&mut lives, w);
                    proof {
                        assert(w * k == w * (k - 1) + w) by (nonlinear_arith);
                        assert(lives@ =~= padded + falses(w * k));
                    }
                    k += 1;
                }
            } else {
                proof {
                    assert(lives@ =~= padded + falses(0));
                }
            }
            num = Vec::new();
            col = 0;
        }
        proof {
            assert(bytes[i as int] == c);
        }
        i += 1;
    }
    let len = lives.len();
    if len < total {
        push_falses(&mut lives, total - len);
    }
    lives
}

/// A pattern of `w` × `h` cells with `margin` cells added on each side fits
/// in memory that a `usize` can count.
pub open spec fn size_fits(w: int, h: int, margin: int) -> bool {
    &&& w + margin * 2 <= usize::MAX
    &&& h + margin * 2 <= usize::MAX
    &&& (w + margin * 2) * (h + margin * 2) <= usize::MAX
}

/// What decoding a pattern file with the header line `setting` and the data
/// `data` gives: the width, the height and the cells, margin included.
pub open spec fn decoded(setting: Seq<char>, data: Seq<char>, margin: int) -> Option<(int, int, Seq<bool>)> {
    match regex_pair("x = ([0-9]+), y = ([0-9]+)"@, setting) {
        None => None,
        Some((a, b)) => match (digits_usize(encode_utf8(a)), digits_usize(encode_utf8(b))) {
            (Some(w), Some(h)) => if size_fits(w as int, h as int, margin) {
                Some(
                    (
                        w + margin * 2,
                        h + margin * 2,
                        parse_map_spec(w as int, h as int, margin, encode_utf8(data)),
                    ),
                )
            } else {
                None
            },
            _ => None,
        },
    }
}

impl Rle {
    /// Decodes a pattern file: its width and height with `margin` added on
    /// each side, and its cells, row-major.
    pub fn from_string(body: &str, margin: usize) -> (r: Result<(usize, usize, Vec<bool>), StandardError>)
        ensures
            ({
                let (setting, data) = split_spec(lines_of(body@));
                if setting.len() == 0 || data.len() == 0 {
                    r is Err
                } else {
                    match decoded(setting, data, margin as int) {
                        None => r is Err,
                        Some((w, h, cells)) => r matches Ok((rw, rh, rc)) && rw == w && rh == h
                            && rc@ == cells,
                    }
                }
            }),
    {
        let raw = body.to_string();
        proof {
            vstd::string::to_string_from_display_ensures_for_str(body, raw);
        }
        let (setting, data) = match split(raw) {
            Ok(parts) => parts,
            Err(e) => {
                return Err(e);
            },
        };
        let (w, h) = match parse_setting(setting) {
            Ok(dims) => dims,
            Err(e) => {
                return Err(e);
            },
        };
        if w > usize::MAX - margin || w + margin > usize::MAX - margin || h > usize::MAX - margin
            || h + margin > usize::MAX - margin {
            return Err(StandardError::new("too large"));
        }
        let width = w + margin + margin;
        let height = h + margin + margin;
        if height != 0 && width > usize::MAX / height {
            proof {
                assert(width * height > usize::MAX) by (nonlinear_arith)
                    requires
                        height >= 1,
                        width > usize::MAX / height,
                ;
            }
            return Err(StandardError::new("too large"));
        }
        proof {
            assert(width * height <= usize::MAX) by (nonlinear_arith)
                requires
                    height == 0 || width <= usize::MAX / height,
            ;
        }
        let map = parse_map(w, h, margin, data);
        Ok((width, height, map))
    }
}

/// Once `!` is read, the rest of the data changes nothing.
proof fn lemma_decode_done(width: int, start: Seq<bool>, data: Seq<u8>, k: int)
    requires
        0 < k <= data.len(),
        decode(width, start, data, k).3,
    ensures
        decode(width, start, data, data.len() as int) == decode(width, start, data, k),
    decreases data.len() - k,
{
    if k < data.len() {
        lemma_decode_done(width, start, data, k + 1);
    }
}

} // verus!
