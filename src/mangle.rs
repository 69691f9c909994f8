//! Symbol names: demangling, hash suffixes, and the substitution of a
//! mangled symbol inside a larger name.
use vstd::prelude::*;
use crate::grammar::{CharClass, in_class, run_end, run_end_exec, lemma_run_end};
use crate::text::{chars_of, string_of, append_chars, append_range};

verus! {

/// What `rustc_demangle` shows for the symbol `id`, hash included.
pub uninterp spec fn demangled(id: Seq<char>) -> Seq<char>;

/// Relies on `rustc_demangle::demangle` and its `Display` impl: the readable
/// form of a symbol, which depends on the symbol alone.
#[verifier::external_body]
fn demangle_symbol(id: &str) -> (r: String)
    ensures
        r@ == demangled(id@),
{
    rustc_demangle::demangle(id).to_string()
}

/// The length of a hash suffix: `::h` and 16 hex digits.
pub open spec fn hash_len() -> nat {
    19
}

/// `s` ends in `::h` followed by 16 lower-case hex digits.
pub open spec fn has_hash_suffix(s: Seq<char>) -> bool {
    let n = s.len();
    &&& n >= hash_len()
    &&& s[n - 19] == ':' && s[n - 18] == ':' && s[n - 17] == 'h'
    &&& forall|k: int| n - 16 <= k < n ==> in_class(CharClass::HexDigit, #[trigger] s[k])
}

/// `s` without its trailing hash suffix, if it has one.
pub open spec fn strip_hash(s: Seq<char>) -> Seq<char> {
    if has_hash_suffix(s) {
        s.subrange(0, s.len() - hash_len())
    } else {
        s
    }
}

/// Demangling is a function of the symbol: the same symbol demangles to the
/// same name every time.
pub proof fn lemma_demangle_deterministic(a: Seq<char>, b: Seq<char>)
    requires
        a == b,
    ensures
        demangled(a) == demangled(b),
        strip_hash(demangled(a)) == strip_hash(demangled(b)),
{
}

/// Stripping the hash of a stripped name changes nothing, unless the name
/// ended in two hash suffixes.
pub proof fn lemma_strip_hash_idempotent(s: Seq<char>)
    requires
        has_hash_suffix(s) ==> !has_hash_suffix(strip_hash(s)),
    ensures
        strip_hash(strip_hash(s)) == strip_hash(s),
{
}

/// The readable form of the symbol `id`.
pub fn demangle(id: &str) -> (r: String)
    ensures
        r@ == demangled(id@),
{
    demangle_symbol(id)
}

fn has_hash_suffix_exec(s: &Vec<char>) -> (r: bool)
    ensures
        r == has_hash_suffix(s@),
{
    let n = s.len();
    if n < 19 {
        return false;
    }
    if !(s[n - 19] == ':' && s[n - 18] == ':' && s[n - 17] == 'h') {
        return false;
    }
    let mut k = n - 16;
    while k < n
        invariant
            n == s@.len(),
            n >= 19,
            n - 16 <= k <= n,
            forall|q: int| n - 16 <= q < k ==> in_class(CharClass::HexDigit, #[trigger] s@[q]),
        decreases n - k,
    {
        if !(('0' <= s[k] && s[k] <= '9') || ('a' <= s[k] && s[k] <= 'f')) {
            return false;
        }
        k += 1;
    }
    true
}

/// The readable form of the symbol `id` without its trailing hash suffix.
pub fn demangle_no_hash(id: &str) -> (r: String)
    ensures
        r@ == strip_hash(demangled(id@)),
{
    let d = demangle_symbol(id);
    let cs = chars_of(d.as_str());
    if has_hash_suffix_exec(&cs) {
        string_of(&cs, 0, cs.len() - 19)
    } else {
        d
    }
}

/// A mangled symbol starts at `p`: `_ZN` or `_R`.
pub open spec fn symbol_at(s: Seq<char>, p: nat) -> Option<(nat, nat)> {
    if p + 2 < s.len() && s[p as int] == '_' && s[(p + 1) as int] == 'Z' && s[(p + 2) as int] == 'N' {
        Some((p, run_end(s, p + 3, CharClass::SymbolChar)))
    } else if p + 1 < s.len() && s[p as int] == '_' && s[(p + 1) as int] == 'R' {
        Some((p, run_end(s, p + 2, CharClass::SymbolChar)))
    } else {
        None
    }
}

/// The span of the leftmost mangled symbol at or after `p`.
pub open spec fn symbol_from(s: Seq<char>, p: nat) -> Option<(nat, nat)>
    decreases s.len() - p,
{
    if p >= s.len() {
        None
    } else {
        match symbol_at(s, p) {
            Some(x) => Some(x),
            None => symbol_from(s, p + 1),
        }
    }
}

/// `s` with its leftmost mangled symbol `x` replaced by `f(x)`.
pub open spec fn replace_symbol(s: Seq<char>, f: spec_fn(Seq<char>) -> Seq<char>) -> Seq<char> {
    match symbol_from(s, 0) {
        Some((a, b)) => s.subrange(0, a as int) + f(s.subrange(a as int, b as int)) + s.subrange(
            b as int,
            s.len() as int,
        ),
        None => s,
    }
}

pub open spec fn demangle_fn() -> spec_fn(Seq<char>) -> Seq<char> {
    |x: Seq<char>| demangled(x)
}

pub open spec fn demangle_no_hash_fn() -> spec_fn(Seq<char>) -> Seq<char> {
    |x: Seq<char>| strip_hash(demangled(x))
}

proof fn lemma_symbol_from(s: Seq<char>, p: nat)
    ensures
        match symbol_from(s, p) {
            Some(x) => p <= x.0 < x.1 <= s.len(),
            None => true,
        },
    decreases s.len() - p,
{
    if p < s.len() {
        match symbol_at(s, p) {
            Some(x) => {
                if p + 2 < s.len() && s[p as int] == '_' && s[(p + 1) as int] == 'Z' && s[(p + 2) as int] == 'N' {
                    lemma_run_end(s, p + 3, CharClass::SymbolChar);
                } else {
                    lemma_run_end(s, p + 2, CharClass::SymbolChar);
                }
            },
            None => lemma_symbol_from(s, p + 1),
        }
    }
}

fn symbol_span(s: &Vec<char>) -> (r: Option<(usize, usize)>)
    ensures
        match r {
            Some(x) => symbol_from(s@, 0) == Some((x.0 as nat, x.1 as nat)),
            None => symbol_from(s@, 0) is None,
        },
{
    let n = s.len();
    let mut p: usize = 0;
    while p < n
        invariant
            n == s@.len(),
            p <= n,
            symbol_from(s@, p as nat) == symbol_from(s@, 0),
        decreases n - p,
    {
        if p + 1 < n && p + 2 < n && s[p] == '_' && s[p + 1] == 'Z' && s[p + 2] == 'N' {
            proof {
                lemma_run_end(s@, (p + 3) as nat, CharClass::SymbolChar);
            }
            return Some((p, run_end_exec(s, p + 3, CharClass::SymbolChar)));
        } else if p + 1 < n && s[p] == '_' && s[p + 1] == 'R' {
            proof {
                lemma_run_end(s@, (p + 2) as nat, CharClass::SymbolChar);
            }
            return Some((p, run_end_exec(s, p + 2, CharClass::SymbolChar)));
        }
        p += 1;
    }
    None
}

/// `name` with its leftmost mangled symbol demangled, hash suffix kept or
/// stripped.
pub fn demangle_in(name: &Vec<char>, keep_hash: bool) -> (r: String)
    ensures
        r@ == replace_symbol(name@, if keep_hash { demangle_fn() } else { demangle_no_hash_fn() }),
{
    proof {
        lemma_symbol_from(name@, 0);
    }
    match symbol_span(name) {
        Some((a, b)) => {
            let sym = string_of(name, a, b);
            let shown = if keep_hash {
                demangle(sym.as_str())
            } else {
                demangle_no_hash(sym.as_str())
            };
            let mut out: Vec<char> = Vec::new();
            append_range(&mut out, name, 0, a);
            append_chars(&mut out, shown.as_str());
            append_range(&mut out, name, b, name.len());
            let r = string_of(&out, 0, out.len());
            assert(r@ =~= out@);
            r
        },
        None => string_of(name, 0, name.len()),
    }
}

} // verus!
