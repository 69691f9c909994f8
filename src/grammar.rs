//! The grammar of one line of disassembler output, over characters.
//!
//! Patterns are tried at each start position from the left, and the first
//! position where a pattern fits wins. Runs of a character class are taken
//! whole, and an open stretch (a section name, a label name) reaches to the
//! last occurrence of the delimiter that closes it.
use vstd::prelude::*;

verus! {

/// The character classes that the line patterns use.
#[derive(Clone, Copy)]
pub enum CharClass {
    /// `0-9` and `a-f`
    HexDigit,
    /// the space character
    Space,
    /// `a-z` and `0-9`
    LowerOrDigit,
    /// `$`, `.`, `_` and ASCII letters and digits
    SymbolChar,
}

pub open spec fn is_digit(c: char) -> bool {
    '0' <= c <= '9'
}

pub open spec fn is_lower(c: char) -> bool {
    'a' <= c <= 'z'
}

pub open spec fn in_class(k: CharClass, c: char) -> bool {
    match k {
        CharClass::HexDigit => is_digit(c) || ('a' <= c <= 'f'),
        CharClass::Space => c == ' ',
        CharClass::LowerOrDigit => is_lower(c) || is_digit(c),
        CharClass::SymbolChar => c == '$' || c == '.' || c == '_' || is_digit(c) || is_lower(c) || (
        'A' <= c <= 'Z'),
    }
}

fn has_class(k: CharClass, c: char) -> (r: bool)
    ensures
        r == in_class(k, c),
{
    match k {
        CharClass::HexDigit => ('0' <= c && c <= '9') || ('a' <= c && c <= 'f'),
        CharClass::Space => c == ' ',
        CharClass::LowerOrDigit => ('a' <= c && c <= 'z') || ('0' <= c && c <= '9'),
        CharClass::SymbolChar => c == '$' || c == '.' || c == '_' || ('0' <= c && c <= '9') || ('a'
            <= c && c <= 'z') || ('A' <= c && c <= 'Z'),
    }
}

/// The end of the run of class `k` that starts at `p`.
pub open spec fn run_end(s: Seq<char>, p: nat, k: CharClass) -> nat
    decreases s.len() - p,
{
    if p < s.len() && in_class(k, s[p as int]) {
        run_end(s, p + 1, k)
    } else {
        p
    }
}

/// `lit` stands in `s` at position `p`.
pub open spec fn occurs(s: Seq<char>, lit: Seq<char>, p: nat) -> bool {
    p + lit.len() <= s.len() && s.subrange(p as int, (p + lit.len()) as int) == lit
}

/// The first position `q >= p` holding `c`.
pub open spec fn first_char(s: Seq<char>, c: char, p: nat) -> Option<nat>
    decreases s.len() - p,
{
    if p >= s.len() {
        None
    } else if s[p as int] == c {
        Some(p)
    } else {
        first_char(s, c, p + 1)
    }
}

/// The last position `q` with `lo <= q < hi` where `a` is followed by `b`, or
/// where `a` stands when `b` is `None`.
pub open spec fn last_of(s: Seq<char>, a: char, b: Option<char>, lo: nat, hi: nat) -> Option<nat>
    decreases hi,
{
    if hi <= lo {
        None
    } else if hi - 1 < s.len() && s[hi - 1] == a && match b {
        Some(x) => hi < s.len() && s[hi as int] == x,
        None => true,
    } {
        Some((hi - 1) as nat)
    } else {
        last_of(s, a, b, lo, (hi - 1) as nat)
    }
}

/// Where the line holding position `p` ends: the first line break at or
/// after `p`, or the end of `s`. Open stretches do not cross it.
pub open spec fn line_end(s: Seq<char>, p: nat) -> nat {
    match first_char(s, '\n', p) {
        Some(q) => q,
        None => s.len(),
    }
}

pub open spec fn section_prefix() -> Seq<char> {
    "Disassembly of section "@
}

/// A section header at `p`: the name runs from the end of the prefix to the
/// last colon of the line.
pub open spec fn header_at(s: Seq<char>, p: nat) -> Option<(nat, nat)> {
    if occurs(s, section_prefix(), p) {
        let from = p + section_prefix().len();
        match last_of(s, ':', None, from, line_end(s, from)) {
            Some(c) => Some((from, c)),
            None => None,
        }
    } else {
        None
    }
}

/// A label at `p`: a run of hex digits, ` <`, and a name up to the last `>:`.
/// Gives the spans of the offset and of the name.
pub open spec fn label_at(s: Seq<char>, p: nat) -> Option<(nat, nat, nat, nat)> {
    if p < s.len() && in_class(CharClass::HexDigit, s[p as int]) {
        let e = run_end(s, p, CharClass::HexDigit);
        if e + 1 < s.len() && s[e as int] == ' ' && s[(e + 1) as int] == '<' {
            match last_of(s, '>', Some(':'), e + 2, line_end(s, e + 2)) {
                Some(q) => Some((p, e, e + 2, q)),
                None => None,
            }
        } else {
            None
        }
    } else {
        None
    }
}

/// An instruction at `p`: spaces, a run of hex digits, `:` and a tab, a
/// mnemonic of a lower-case letter then lower-case letters and digits, and
/// spaces. Gives the spans of the offset and of the mnemonic, and where the
/// operands start.
pub open spec fn instruction_at(s: Seq<char>, p: nat) -> Option<(nat, nat, nat, nat, nat)> {
    if p < s.len() && s[p as int] == ' ' {
        let a = run_end(s, p + 1, CharClass::Space);
        if a < s.len() && in_class(CharClass::HexDigit, s[a as int]) {
            let e = run_end(s, a, CharClass::HexDigit);
            if e + 2 < s.len() && s[e as int] == ':' && s[(e + 1) as int] == '\t' && is_lower(s[(e + 2) as int]) {
                let o = run_end(s, e + 3, CharClass::LowerOrDigit);
                Some((a, e, e + 2, o, run_end(s, o, CharClass::Space)))
            } else {
                None
            }
        } else {
            None
        }
    } else {
        None
    }
}

/// The leftmost section header at or after `p`.
pub open spec fn header_from(s: Seq<char>, p: nat) -> Option<(nat, nat)>
    decreases s.len() - p,
{
    if p >= s.len() {
        None
    } else {
        match header_at(s, p) {
            Some(x) => Some(x),
            None => header_from(s, p + 1),
        }
    }
}

/// The leftmost label at or after `p`.
pub open spec fn label_from(s: Seq<char>, p: nat) -> Option<(nat, nat, nat, nat)>
    decreases s.len() - p,
{
    if p >= s.len() {
        None
    } else {
        match label_at(s, p) {
            Some(x) => Some(x),
            None => label_from(s, p + 1),
        }
    }
}

/// The leftmost instruction at or after `p`.
pub open spec fn instruction_from(s: Seq<char>, p: nat) -> Option<(nat, nat, nat, nat, nat)>
    decreases s.len() - p,
{
    if p >= s.len() {
        None
    } else {
        match instruction_at(s, p) {
            Some(x) => Some(x),
            None => instruction_from(s, p + 1),
        }
    }
}

/// The spans of the fields of `s` from `p` to its end that `sep` separates.
pub open spec fn fields(s: Seq<char>, sep: char, p: nat) -> Seq<(nat, nat)>
    decreases s.len() - p,
{
    match first_char(s, sep, p) {
        Some(c) => {
            proof {
                lemma_first_char(s, sep, p);
            }
            if c < s.len() {
                seq![(p, c)] + fields(s, sep, c + 1)
            } else {
                seq![]
            }
        },
        None => seq![(p, s.len())],
    }
}

/// A bracketed symbol reference at or after `p`: from the first `<` that a
/// `>` follows on its line to the last such `>`, as the span of what stands
/// between them.
pub open spec fn bracketed_from(s: Seq<char>, p: nat) -> Option<(nat, nat)>
    decreases s.len() - p,
{
    match first_char(s, '<', p) {
        Some(f) => {
            proof {
                lemma_first_char(s, '<', p);
            }
            match last_of(s, '>', None, f + 1, line_end(s, f + 1)) {
                Some(g) => Some((f + 1, g)),
                None => bracketed_from(s, f + 1),
            }
        },
        None => None,
    }
}

pub open spec fn bracketed(s: Seq<char>) -> Option<(nat, nat)> {
    bracketed_from(s, 0)
}

/// Unicode white space, as `char::is_whitespace` documents it.
pub open spec fn is_white(c: char) -> bool {
    ||| '\t' <= c <= '\r'
    ||| c == ' '
    ||| c == '\u{85}'
    ||| c == '\u{a0}'
    ||| c == '\u{1680}'
    ||| '\u{2000}' <= c <= '\u{200a}'
    ||| c == '\u{2028}'
    ||| c == '\u{2029}'
    ||| c == '\u{202f}'
    ||| c == '\u{205f}'
    ||| c == '\u{3000}'
}

pub open spec fn is_blank(s: Seq<char>) -> bool {
    forall|k: int| 0 <= k < s.len() ==> is_white(#[trigger] s[k])
}

pub proof fn lemma_run_end(s: Seq<char>, p: nat, k: CharClass)
    ensures
        p <= s.len() ==> p <= run_end(s, p, k) <= s.len(),
        p > s.len() ==> run_end(s, p, k) == p,
    decreases s.len() - p,
{
    if p < s.len() && in_class(k, s[p as int]) {
        lemma_run_end(s, p + 1, k);
    }
}

pub fn run_end_exec(s: &Vec<char>, p: usize, k: CharClass) -> (r: usize)
    requires
        p <= s@.len(),
    ensures
        r == run_end(s@, p as nat, k),
{
    let mut q = p;
    while q < s.len() && has_class(k, s[q])
        invariant
            p <= q <= s@.len(),
            run_end(s@, q as nat, k) == run_end(s@, p as nat, k),
        decreases s@.len() - q,
    {
        q += 1;
    }
    q
}

fn first_char_exec(s: &Vec<char>, c: char, p: usize) -> (r: Option<usize>)
    requires
        p <= s@.len(),
    ensures
        match r {
            Some(q) => first_char(s@, c, p as nat) == Some(q as nat) && q < s@.len(),
            None => first_char(s@, c, p as nat) is None,
        },
{
    let mut q = p;
    while q < s.len()
        invariant
            p <= q <= s@.len(),
            first_char(s@, c, q as nat) == first_char(s@, c, p as nat),
        decreases s@.len() - q,
    {
        if s[q] == c {
            return Some(q);
        }
        q += 1;
    }
    None
}

fn last_of_exec(s: &Vec<char>, a: char, b: Option<char>, lo: usize, hi: usize) -> (r: Option<usize>)
    requires
        hi <= s@.len(),
    ensures
        match r {
            Some(q) => last_of(s@, a, b, lo as nat, hi as nat) == Some(q as nat),
            None => last_of(s@, a, b, lo as nat, hi as nat) is None,
        },
{
    let mut h = hi;
    while h > lo
        invariant
            h <= hi <= s@.len(),
            last_of(s@, a, b, lo as nat, h as nat) == last_of(s@, a, b, lo as nat, hi as nat),
        decreases h,
    {
        let fits = match b {
            Some(x) => h < s.len() && s[h] == x,
            None => true,
        };
        if s[h - 1] == a && fits {
            return Some(h - 1);
        }
        h -= 1;
    }
    None
}

fn line_end_exec(s: &Vec<char>, p: usize) -> (r: usize)
    requires
        p <= s@.len(),
    ensures
        r == line_end(s@, p as nat),
        p <= r <= s@.len(),
{
    proof {
        lemma_first_char(s@, '\n', p as nat);
    }
    match first_char_exec(s, '\n', p) {
        Some(q) => q,
        None => s.len(),
    }
}

fn occurs_exec(s: &Vec<char>, lit: &Vec<char>, p: usize) -> (r: bool)
    ensures
        r == occurs(s@, lit@, p as nat),
{
    if p > s.len() || lit.len() > s.len() - p {
        return false;
    }
    let mut k: usize = 0;
    while k < lit.len()
        invariant
            p + lit@.len() <= s@.len(),
            s@.len() <= usize::MAX,
            k <= lit@.len(),
            forall|q: int| 0 <= q < k ==> s@[p + q] == lit@[q],
        decreases lit@.len() - k,
    {
        if s[p + k] != lit[k] {
            assert(s@.subrange(p as int, p + lit@.len())[k as int] != lit@[k as int]);
            return false;
        }
        k += 1;
    }
    assert(s@.subrange(p as int, p + lit@.len()) =~= lit@);
    true
}

/// The span of the name of the leftmost section header in `s`.
pub fn header_span(s: &Vec<char>, prefix: &Vec<char>) -> (r: Option<(usize, usize)>)
    requires
        prefix@ == section_prefix(),
    ensures
        match r {
            Some(x) => header_from(s@, 0) == Some((x.0 as nat, x.1 as nat)),
            None => header_from(s@, 0) is None,
        },
{
    let mut p: usize = 0;
    while p < s.len()
        invariant
            prefix@ == section_prefix(),
            p <= s@.len(),
            header_from(s@, p as nat) == header_from(s@, 0),
        decreases s@.len() - p,
    {
        if occurs_exec(s, prefix, p) {
            let from = p + prefix.len();
            let end = line_end_exec(s, from);
            match last_of_exec(s, ':', None, from, end) {
                Some(c) => {
                    return Some((from, c));
                },
                None => {},
            }
        }
        p += 1;
    }
    None
}

/// The spans of the offset and the name of the leftmost label in `s`.
pub fn label_span(s: &Vec<char>) -> (r: Option<(usize, usize, usize, usize)>)
    ensures
        match r {
            Some(x) => label_from(s@, 0) == Some((x.0 as nat, x.1 as nat, x.2 as nat, x.3 as nat)),
            None => label_from(s@, 0) is None,
        },
{
    let mut p: usize = 0;
    while p < s.len()
        invariant
            p <= s@.len(),
            label_from(s@, p as nat) == label_from(s@, 0),
        decreases s@.len() - p,
    {
        if has_class(CharClass::HexDigit, s[p]) {
            let e = run_end_exec(s, p, CharClass::HexDigit);
            proof {
                lemma_run_end(s@, p as nat, CharClass::HexDigit);
            }
            if e < s.len() && s[e] == ' ' && e + 1 < s.len() && s[e + 1] == '<' {
                let end = line_end_exec(s, e + 2);
                match last_of_exec(s, '>', Some(':'), e + 2, end) {
                    Some(q) => {
                        return Some((p, e, e + 2, q));
                    },
                    None => {},
                }
            }
        }
        p += 1;
    }
    None
}

/// The spans of the offset and the mnemonic of the leftmost instruction in
/// `s`, and where its operands start.
pub fn instruction_span(s: &Vec<char>) -> (r: Option<(usize, usize, usize, usize, usize)>)
    ensures
        match r {
            Some(x) => instruction_from(s@, 0) == Some(
                (x.0 as nat, x.1 as nat, x.2 as nat, x.3 as nat, x.4 as nat),
            ),
            None => instruction_from(s@, 0) is None,
        },
{
    let mut p: usize = 0;
    while p < s.len()
        invariant
            p <= s@.len(),
            instruction_from(s@, p as nat) == instruction_from(s@, 0),
        decreases s@.len() - p,
    {
        if s[p] == ' ' {
            let a = run_end_exec(s, p + 1, CharClass::Space);
            proof {
                lemma_run_end(s@, (p + 1) as nat, CharClass::Space);
            }
            if a < s.len() && has_class(CharClass::HexDigit, s[a]) {
                let e = run_end_exec(s, a, CharClass::HexDigit);
                proof {
                    lemma_run_end(s@, a as nat, CharClass::HexDigit);
                }
                if e < s.len() && s[e] == ':' && e + 1 < s.len() && s[e + 1] == '\t' && e + 2 < s.len()
                    && 'a' <= s[e + 2] && s[e + 2] <= 'z' {
                    let o = run_end_exec(s, e + 3, CharClass::LowerOrDigit);
                    proof {
                        lemma_run_end(s@, (e + 3) as nat, CharClass::LowerOrDigit);
                    }
                    let t = run_end_exec(s, o, CharClass::Space);
                    return Some((a, e, e + 2, o, t));
                }
            }
        }
        p += 1;
    }
    None
}

pub proof fn lemma_first_char(s: Seq<char>, c: char, p: nat)
    ensures
        match first_char(s, c, p) {
            Some(q) => p <= q < s.len() && s[q as int] == c,
            None => true,
        },
    decreases s.len() - p,
{
    if p < s.len() && s[p as int] != c {
        lemma_first_char(s, c, p + 1);
    }
}

/// The spans of the fields of `s` from `p` on that `sep` separates.
pub fn field_spans(s: &Vec<char>, sep: char, p: usize) -> (r: Vec<(usize, usize)>)
    requires
        p <= s@.len(),
    ensures
        r@.len() == fields(s@, sep, p as nat).len(),
        forall|k: int|
            0 <= k < r@.len() ==> r@[k].0 == fields(s@, sep, p as nat)[k].0 && r@[k].1 == fields(s@, sep, p as nat)[k].1,
{
    let mut r: Vec<(usize, usize)> = Vec::new();
    let mut q = p;
    let l = s.len();
    loop
        invariant_except_break
            fields(s@, sep, p as nat) == r@.map_values(|x: (usize, usize)| (x.0 as nat, x.1 as nat)) + fields(s@, sep, q as nat),
        invariant
            p <= q <= s@.len(),
            l == s@.len(),
        ensures
            fields(s@, sep, p as nat) == r@.map_values(|x: (usize, usize)| (x.0 as nat, x.1 as nat)),
        decreases s@.len() - q,
    {
        let next = first_char_exec(s, sep, q);
        proof {
            lemma_first_char(s@, sep, q as nat);
        }
        match next {
            Some(c) => {
                proof {
                    let old_r = r@.map_values(|x: (usize, usize)| (x.0 as nat, x.1 as nat));
                    let new_r = r@.push((q, c)).map_values(|x: (usize, usize)| (x.0 as nat, x.1 as nat));
                    assert(new_r =~= old_r + seq![(q as nat, c as nat)]);
                    assert(c < s@.len());
                    assert(fields(s@, sep, q as nat) == seq![(q as nat, c as nat)] + fields(s@, sep, (c + 1) as nat));
                    assert(old_r + (seq![(q as nat, c as nat)] + fields(s@, sep, (c + 1) as nat)) =~= new_r
                        + fields(s@, sep, (c + 1) as nat));
                }
                r.push((q, c));
                q = c + 1;
            },
            None => {
                proof {
                    let old_r = r@.map_values(|x: (usize, usize)| (x.0 as nat, x.1 as nat));
                    let new_r = r@.push((q, l)).map_values(|x: (usize, usize)| (x.0 as nat, x.1 as nat));
                    assert(new_r =~= old_r + seq![(q as nat, l as nat)]);
                    assert(first_char(s@, sep, q as nat) is None);
                    assert(fields(s@, sep, q as nat) == seq![(q as nat, l as nat)]);
                    assert(old_r + fields(s@, sep, q as nat) =~= new_r);
                }
                r.push((q, l));
                break ;
            },
        }
    }
    r
}

/// The span of the leftmost bracketed symbol reference in `s`.
pub fn bracketed_span(s: &Vec<char>) -> (r: Option<(usize, usize)>)
    ensures
        match r {
            Some(x) => bracketed(s@) == Some((x.0 as nat, x.1 as nat)),
            None => bracketed(s@) is None,
        },
{
    let l = s.len();
    let mut p: usize = 0;
    loop
        invariant
            l == s@.len(),
            p <= l,
            bracketed_from(s@, p as nat) == bracketed(s@),
        decreases l - p,
    {
        proof {
            lemma_first_char(s@, '<', p as nat);
        }
        match first_char_exec(s, '<', p) {
            Some(f) => {
                let end = line_end_exec(s, f + 1);
                match last_of_exec(s, '>', None, f + 1, end) {
                    Some(g) => {
                        return Some((f + 1, g));
                    },
                    None => {
                        p = f + 1;
                    },
                }
            },
            None => {
                return None;
            },
        }
    }
}

fn is_white_exec(c: char) -> (r: bool)
    ensures
        r == is_white(c),
{
    ('\t' <= c && c <= '\r') || c == ' ' || c == '\u{85}' || c == '\u{a0}' || c == '\u{1680}' || (
    '\u{2000}' <= c && c <= '\u{200a}') || c == '\u{2028}' || c == '\u{2029}' || c == '\u{202f}'
        || c == '\u{205f}' || c == '\u{3000}'
}

/// Every character of `s` is white space.
pub fn blank(s: &Vec<char>) -> (r: bool)
    ensures
        r == is_blank(s@),
{
    let mut k: usize = 0;
    while k < s.len()
        invariant
            k <= s@.len(),
            forall|q: int| 0 <= q < k ==> is_white(#[trigger] s@[q]),
        decreases s@.len() - k,
    {
        if !is_white_exec(s[k]) {
            return false;
        }
        k += 1;
    }
    true
}

pub proof fn lemma_last_of(s: Seq<char>, a: char, b: Option<char>, lo: nat, hi: nat)
    ensures
        match last_of(s, a, b, lo, hi) {
            Some(q) => lo <= q < hi && q < s.len(),
            None => true,
        },
    decreases hi,
{
    if hi > lo {
        lemma_last_of(s, a, b, lo, (hi - 1) as nat);
    }
}

/// The spans that the line patterns give lie inside the line, in order.
pub proof fn lemma_header_from(s: Seq<char>, p: nat)
    ensures
        match header_from(s, p) {
            Some(x) => x.0 <= x.1 <= s.len(),
            None => true,
        },
    decreases s.len() - p,
{
    if p < s.len() {
        if occurs(s, section_prefix(), p) {
            let from = p + section_prefix().len();
            lemma_first_char(s, '\n', from);
            lemma_last_of(s, ':', None, from, line_end(s, from));
        }
        lemma_header_from(s, p + 1);
    }
}

pub proof fn lemma_label_from(s: Seq<char>, p: nat)
    ensures
        match label_from(s, p) {
            Some(x) => x.0 <= x.1 <= x.2 <= x.3 <= s.len(),
            None => true,
        },
    decreases s.len() - p,
{
    if p < s.len() {
        lemma_run_end(s, p, CharClass::HexDigit);
        let e = run_end(s, p, CharClass::HexDigit);
        lemma_last_of(s, '>', Some(':'), e + 2, line_end(s, e + 2));
        lemma_label_from(s, p + 1);
    }
}

pub proof fn lemma_instruction_from(s: Seq<char>, p: nat)
    ensures
        match instruction_from(s, p) {
            Some(x) => x.0 <= x.1 <= x.2 <= x.3 <= x.4 <= s.len(),
            None => true,
        },
    decreases s.len() - p,
{
    if p < s.len() {
        lemma_run_end(s, p + 1, CharClass::Space);
        let a = run_end(s, p + 1, CharClass::Space);
        lemma_run_end(s, a, CharClass::HexDigit);
        let e = run_end(s, a, CharClass::HexDigit);
        lemma_run_end(s, e + 3, CharClass::LowerOrDigit);
        let o = run_end(s, e + 3, CharClass::LowerOrDigit);
        lemma_run_end(s, o, CharClass::Space);
        lemma_instruction_from(s, p + 1);
    }
}

pub proof fn lemma_fields(s: Seq<char>, sep: char, p: nat)
    requires
        p <= s.len(),
    ensures
        fields(s, sep, p).len() <= s.len() - p + 1,
        forall|k: int|
            0 <= k < fields(s, sep, p).len() ==> p <= (#[trigger] fields(s, sep, p)[k]).0 <= fields(s, sep, p)[k].1
                <= s.len(),
    decreases s.len() - p,
{
    lemma_first_char(s, sep, p);
    match first_char(s, sep, p) {
        Some(c) => {
            lemma_fields(s, sep, c + 1);
            let f = fields(s, sep, p);
            assert forall|k: int| 0 <= k < f.len() implies p <= (#[trigger] f[k]).0 <= f[k].1 <= s.len() by {
                if k > 0 {
                    assert(f[k] == fields(s, sep, c + 1)[k - 1]);
                }
            }
        },
        None => {},
    }
}

pub proof fn lemma_bracketed(s: Seq<char>, p: nat)
    ensures
        match bracketed_from(s, p) {
            Some(x) => x.0 <= x.1 <= s.len(),
            None => true,
        },
    decreases s.len() - p,
{
    lemma_first_char(s, '<', p);
    match first_char(s, '<', p) {
        Some(f) => {
            lemma_first_char(s, '\n', f + 1);
            lemma_last_of(s, '>', None, f + 1, line_end(s, f + 1));
            lemma_bracketed(s, f + 1);
        },
        None => {},
    }
}

} // verus!
