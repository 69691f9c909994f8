//! Classified lines of disassembler output.
use vstd::prelude::*;
use crate::grammar::{
    header_from, label_from, instruction_from, fields, bracketed, is_blank, section_prefix,
    header_span, label_span, instruction_span, field_spans, bracketed_span, blank, lemma_header_from,
    lemma_label_from, lemma_instruction_from, lemma_fields, lemma_bracketed,
};
use crate::mangle::{
    demangled, strip_hash, replace_symbol, demangle_fn, demangle_no_hash_fn, demangle,
    demangle_no_hash, demangle_in,
};
use crate::text::{chars_of, string_of, append_chars};

verus! {

/// The characters of `s` from `a` to `b`.
pub open spec fn span(s: Seq<char>, a: nat, b: nat) -> Seq<char> {
    s.subrange(a as int, b as int)
}

/// The texts of a list of strings.
pub open spec fn texts(v: Seq<String>) -> Seq<Seq<char>> {
    v.map_values(|x: String| x@)
}

/// The parts joined, with `sep` between each two.
pub open spec fn join(parts: Seq<Seq<char>>, sep: Seq<char>) -> Seq<char>
    decreases parts.len(),
{
    if parts.len() == 0 {
        seq![]
    } else if parts.len() == 1 {
        parts[0]
    } else {
        join(parts.drop_last(), sep) + sep + parts.last()
    }
}

/// An operand as shown: the symbol it references in brackets demangled, with
/// or without its hash; an operand without such a reference as it is.
pub open spec fn shown_operand(o: Seq<char>, keep_hash: bool) -> Seq<char> {
    match bracketed(o) {
        Some(x) => if keep_hash {
            demangled(span(o, x.0, x.1))
        } else {
            strip_hash(demangled(span(o, x.0, x.1)))
        },
        None => o,
    }
}

/// What a label holds: its symbol name as written, demangled, and demangled
/// without hash, and its offset.
pub struct LabelView {
    pub name: Seq<char>,
    pub demangled_name: Seq<char>,
    pub clean_name: Seq<char>,
    pub offset: Seq<char>,
}

/// What an instruction holds: its mnemonic, its operands as written, with
/// their symbol demangled, and demangled without hash, and its offset.
pub struct InstructionView {
    pub op: Seq<char>,
    pub operands: Seq<Seq<char>>,
    pub operands_demangled: Seq<Seq<char>>,
    pub operands_no_hash: Seq<Seq<char>>,
    pub offset: Seq<char>,
}

pub enum AsmLineView {
    Label(LabelView),
    Instruction(InstructionView),
    SectionHeader(Seq<char>),
    Blank,
    Other,
}

pub struct LineView {
    pub raw: Seq<char>,
    pub kind: AsmLineView,
}

/// The label whose offset and name stand at the spans `x` of `s`.
pub open spec fn label_view(s: Seq<char>, x: (nat, nat, nat, nat)) -> LabelView {
    let name = span(s, x.2, x.3);
    LabelView {
        name,
        demangled_name: replace_symbol(name, demangle_fn()),
        clean_name: replace_symbol(name, demangle_no_hash_fn()),
        offset: span(s, x.0, x.1),
    }
}

/// The instruction whose offset and mnemonic stand at the spans `x` of `s`,
/// with its operands from `x.4` on.
pub open spec fn instruction_view(s: Seq<char>, x: (nat, nat, nat, nat, nat)) -> InstructionView {
    let ops = fields(s, ',', x.4).map_values(|f: (nat, nat)| span(s, f.0, f.1));
    InstructionView {
        op: span(s, x.2, x.3),
        operands: ops,
        operands_demangled: ops.map_values(|o: Seq<char>| shown_operand(o, true)),
        operands_no_hash: ops.map_values(|o: Seq<char>| shown_operand(o, false)),
        offset: span(s, x.0, x.1),
    }
}

/// The classification of one line: a section header, else a label, else an
/// instruction, else blank, else other.
pub open spec fn classify(s: Seq<char>) -> AsmLineView {
    match header_from(s, 0) {
        Some(h) => AsmLineView::SectionHeader(span(s, h.0, h.1)),
        None => match label_from(s, 0) {
            Some(l) => AsmLineView::Label(label_view(s, l)),
            None => match instruction_from(s, 0) {
                Some(i) => AsmLineView::Instruction(instruction_view(s, i)),
                None => if is_blank(s) {
                    AsmLineView::Blank
                } else {
                    AsmLineView::Other
                },
            },
        },
    }
}


/// The line an instruction diff compares by: instructions agree on their
/// mnemonic, other lines on their whole classification.
pub open spec fn same_op(a: LineView, b: LineView) -> bool {
    match (a.kind, b.kind) {
        (AsmLineView::Instruction(i), AsmLineView::Instruction(j)) => i.op == j.op,
        _ => a.kind == b.kind,
    }
}

/// The text of an instruction: mnemonic, a space, operands joined by `, `.
pub open spec fn content_of(i: InstructionView) -> Seq<char> {
    i.op + seq![' '] + join(i.operands, ", "@)
}

/// Instructions agree on their whole text, other lines on their whole
/// classification.
pub open spec fn same_content(a: LineView, b: LineView) -> bool {
    match (a.kind, b.kind) {
        (AsmLineView::Instruction(i), AsmLineView::Instruction(j)) => content_of(i) == content_of(j),
        _ => a.kind == b.kind,
    }
}

/// Labels agree on their demangled name, with or without hash; other lines
/// on their whole classification.
pub open spec fn same_label(a: LineView, b: LineView, no_hash: bool) -> bool {
    match (a.kind, b.kind) {
        (AsmLineView::Label(x), AsmLineView::Label(y)) => if no_hash {
            x.clean_name == y.clean_name
        } else {
            x.demangled_name == y.demangled_name
        },
        _ => a.kind == b.kind,
    }
}

/// Section headers agree on their name, other lines on their whole
/// classification.
pub open spec fn same_section(a: LineView, b: LineView) -> bool {
    match (a.kind, b.kind) {
        (AsmLineView::SectionHeader(x), AsmLineView::SectionHeader(y)) => x == y,
        _ => a.kind == b.kind,
    }
}

/// The offset column of a label or an instruction, as written.
pub struct Offset(String);

impl View for Offset {
    type V = Seq<char>;

    closed spec fn view(&self) -> Seq<char> {
        self.0@
    }
}

impl Clone for Offset {
    fn clone(&self) -> (r: Self)
        ensures
            r@ == self@,
    {
        Offset(self.0.clone())
    }
}

/// A section header line.
pub struct SectionHeader(String);

impl View for SectionHeader {
    type V = Seq<char>;

    closed spec fn view(&self) -> Seq<char> {
        self.0@
    }
}

impl Clone for SectionHeader {
    fn clone(&self) -> (r: Self)
        ensures
            r@ == self@,
    {
        SectionHeader(self.0.clone())
    }
}

impl SectionHeader {
    pub fn name(&self) -> (r: &str)
        ensures
            r@ == self@,
    {
        self.0.as_str()
    }
}

/// A label line: a symbol that starts a block.
pub struct Label {
    name: String,
    demangled_name: String,
    clean_name: String,
    offset: Offset,
}

impl View for Label {
    type V = LabelView;

    closed spec fn view(&self) -> LabelView {
        LabelView {
            name: self.name@,
            demangled_name: self.demangled_name@,
            clean_name: self.clean_name@,
            offset: self.offset@,
        }
    }
}

impl Clone for Label {
    fn clone(&self) -> (r: Self)
        ensures
            r@ == self@,
    {
        Label {
            name: self.name.clone(),
            demangled_name: self.demangled_name.clone(),
            clean_name: self.clean_name.clone(),
            offset: self.offset.clone(),
        }
    }
}

impl Label {
    /// The label of a line that holds one.
    pub fn new(line: &str) -> (r: Self)
        requires
            label_from(line@, 0) is Some,
        ensures
            r@ == label_view(line@, label_from(line@, 0)->0),
    {
        let s = chars_of(line);
        proof {
            lemma_label_from(s@, 0);
        }
        let x = label_span(&s).unwrap();
        let name = string_of(&s, x.2, x.3);
        let name_chars = chars_of(name.as_str());
        let demangled_name = demangle_in(&name_chars, true);
        let clean_name = demangle_in(&name_chars, false);
        Label { name, demangled_name, clean_name, offset: Offset(string_of(&s, x.0, x.1)) }
    }

    /// The name with its symbol demangled, hash removed.
    pub fn clean_name(&self) -> (r: &str)
        ensures
            r@ == self@.clean_name,
    {
        self.clean_name.as_str()
    }

    /// The name with its symbol demangled.
    pub fn demangled_name(&self) -> (r: &str)
        ensures
            r@ == self@.demangled_name,
    {
        self.demangled_name.as_str()
    }

    /// The name as written.
    pub fn name(&self) -> (r: &str)
        ensures
            r@ == self@.name,
    {
        self.name.as_str()
    }
}

fn clone_strings(v: &Vec<String>) -> (r: Vec<String>)
    ensures
        texts(r@) == texts(v@),
{
    let mut r: Vec<String> = Vec::new();
    let mut k: usize = 0;
    while k < v.len()
        invariant
            k <= v@.len(),
            r@.len() == k,
            forall|q: int| 0 <= q < k ==> r@[q]@ == v@[q]@,
        decreases v@.len() - k,
    {
        r.push(v[k].clone());
        k += 1;
    }
    assert(texts(r@) =~= texts(v@));
    r
}

/// `op`, a space, and `parts` joined by `, `.
fn joined(op: &String, parts: &Vec<String>) -> (r: String)
    ensures
        r@ == op@ + seq![' '] + join(texts(parts@), ", "@),
{
    let mut out = chars_of(op.as_str());
    out.push(' ');
    let ghost head = out@;
    let mut k: usize = 0;
    while k < parts.len()
        invariant
            k <= parts@.len(),
            out@ == head + join(texts(parts@).take(k as int), ", "@),
        decreases parts@.len() - k,
    {
        let ghost before = out@;
        if k > 0 {
            append_chars(&mut out, ", ");
        }
        append_chars(&mut out, parts[k].as_str());
        proof {
            let t = texts(parts@);
            assert(t.take(k + 1).drop_last() =~= t.take(k as int));
            assert(t.take(k + 1).last() == parts@[k as int]@);
            if k == 0 {
                assert(t.take(0) =~= seq![]);
                assert(out@ =~= head + join(t.take(k + 1), ", "@));
            } else {
                assert(out@ =~= head + join(t.take(k + 1), ", "@));
            }
        }
        k += 1;
    }
    assert(texts(parts@).take(k as int) =~= texts(parts@));
    string_of(&out, 0, out.len())
}

/// An instruction line: mnemonic, operands and offset.
pub struct Instruction {
    op: String,
    operands: Vec<String>,
    operands_demangled: Vec<String>,
    operands_no_hash: Vec<String>,
    offset: Offset,
}

impl View for Instruction {
    type V = InstructionView;

    closed spec fn view(&self) -> InstructionView {
        InstructionView {
            op: self.op@,
            operands: texts(self.operands@),
            operands_demangled: texts(self.operands_demangled@),
            operands_no_hash: texts(self.operands_no_hash@),
            offset: self.offset@,
        }
    }
}

impl Clone for Instruction {
    fn clone(&self) -> (r: Self)
        ensures
            r@ == self@,
    {
        Instruction {
            op: self.op.clone(),
            operands: clone_strings(&self.operands),
            operands_demangled: clone_strings(&self.operands_demangled),
            operands_no_hash: clone_strings(&self.operands_no_hash),
            offset: self.offset.clone(),
        }
    }
}

/// An operand as shown, with or without the hash of its symbol.
fn show_operand(o: &String, keep_hash: bool) -> (r: String)
    ensures
        r@ == shown_operand(o@, keep_hash),
{
    let cs = chars_of(o.as_str());
    proof {
        lemma_bracketed(cs@, 0);
    }
    match bracketed_span(&cs) {
        Some((a, b)) => {
            let sym = string_of(&cs, a, b);
            if keep_hash {
                demangle(sym.as_str())
            } else {
                demangle_no_hash(sym.as_str())
            }
        },
        None => o.clone(),
    }
}

impl Instruction {
    /// The instruction of a line that holds one.
    pub fn new(line: &str) -> (r: Self)
        requires
            instruction_from(line@, 0) is Some,
        ensures
            r@ == instruction_view(line@, instruction_from(line@, 0)->0),
    {
        let s = chars_of(line);
        proof {
            lemma_instruction_from(s@, 0);
        }
        let x = instruction_span(&s).unwrap();
        let spans = field_spans(&s, ',', x.4);
        proof {
            lemma_fields(s@, ',', x.4 as nat);
        }
        let ghost ops = fields(s@, ',', x.4 as nat).map_values(|f: (nat, nat)| span(s@, f.0, f.1));
        let mut operands: Vec<String> = Vec::new();
        let mut operands_demangled: Vec<String> = Vec::new();
        let mut operands_no_hash: Vec<String> = Vec::new();
        let mut k: usize = 0;
        while k < spans.len()
            invariant
                s@ == line@,
                spans@.len() == fields(s@, ',', x.4 as nat).len(),
                forall|q: int|
                    0 <= q < spans@.len() ==> spans@[q].0 == fields(s@, ',', x.4 as nat)[q].0 && spans@[q].1
                        == fields(s@, ',', x.4 as nat)[q].1,
                forall|q: int|
                    0 <= q < fields(s@, ',', x.4 as nat).len() ==> x.4 <= (#[trigger] fields(s@, ',', x.4 as nat)[q]).0
                        <= fields(s@, ',', x.4 as nat)[q].1 <= s@.len(),
                ops == fields(s@, ',', x.4 as nat).map_values(|f: (nat, nat)| span(s@, f.0, f.1)),
                k <= spans@.len(),
                texts(operands@) == ops.take(k as int),
                texts(operands_demangled@) == ops.take(k as int).map_values(
                    |o: Seq<char>| shown_operand(o, true),
                ),
                texts(operands_no_hash@) == ops.take(k as int).map_values(
                    |o: Seq<char>| shown_operand(o, false),
                ),
            decreases spans@.len() - k,
        {
            let (a, b) = spans[k];
            assert(fields(s@, ',', x.4 as nat)[k as int].0 <= fields(s@, ',', x.4 as nat)[k as int].1 <= s@.len());
            let text = string_of(&s, a, b);
            let shown = show_operand(&text, true);
            let bare = show_operand(&text, false);
            proof {
                assert(ops[k as int] == text@);
                assert(ops.take(k + 1) =~= ops.take(k as int).push(text@));
                assert(texts(operands@.push(text)) =~= texts(operands@).push(text@));
                assert(texts(operands_demangled@.push(shown)) =~= texts(operands_demangled@).push(shown@));
                assert(texts(operands_no_hash@.push(bare)) =~= texts(operands_no_hash@).push(bare@));
                assert(ops.take(k + 1).map_values(|o: Seq<char>| shown_operand(o, true)) =~= ops.take(
                    k as int,
                ).map_values(|o: Seq<char>| shown_operand(o, true)).push(shown@));
                assert(ops.take(k + 1).map_values(|o: Seq<char>| shown_operand(o, false)) =~= ops.take(
                    k as int,
                ).map_values(|o: Seq<char>| shown_operand(o, false)).push(bare@));
            }
            operands.push(text);
            operands_demangled.push(shown);
            operands_no_hash.push(bare);
            k += 1;
        }
        assert(ops.take(k as int) =~= ops);
        Instruction {
            op: string_of(&s, x.2, x.3),
            operands,
            operands_demangled,
            operands_no_hash,
            offset: Offset(string_of(&s, x.0, x.1)),
        }
    }

    /// The mnemonic.
    pub fn op(&self) -> (r: &str)
        ensures
            r@ == self@.op,
    {
        self.op.as_str()
    }

    /// The mnemonic and the operands as written.
    pub fn content(&self) -> (r: String)
        ensures
            r@ == self@.op + seq![' '] + join(self@.operands, ", "@),
    {
        joined(&self.op, &self.operands)
    }

    /// The mnemonic and the operands with their symbols demangled.
    pub fn content_demangled(&self) -> (r: String)
        ensures
            r@ == self@.op + seq![' '] + join(self@.operands_demangled, ", "@),
    {
        joined(&self.op, &self.operands_demangled)
    }

    /// The mnemonic and the operands with their symbols demangled, hashes
    /// removed.
    pub fn content_clean(&self) -> (r: String)
        ensures
            r@ == self@.op + seq![' '] + join(self@.operands_no_hash, ", "@),
    {
        joined(&self.op, &self.operands_no_hash)
    }
}

/// What a line was classified as.
pub enum AsmLine {
    Label(Label),
    Instruction(Instruction),
    SectionHeader(SectionHeader),
    Blank,
    Other,
}

impl View for AsmLine {
    type V = AsmLineView;

    open spec fn view(&self) -> AsmLineView {
        match self {
            AsmLine::Label(l) => AsmLineView::Label(l@),
            AsmLine::Instruction(i) => AsmLineView::Instruction(i@),
            AsmLine::SectionHeader(h) => AsmLineView::SectionHeader(h@),
            AsmLine::Blank => AsmLineView::Blank,
            AsmLine::Other => AsmLineView::Other,
        }
    }
}

impl Clone for AsmLine {
    fn clone(&self) -> (r: Self)
        ensures
            r@ == self@,
    {
        match self {
            AsmLine::Label(l) => AsmLine::Label(l.clone()),
            AsmLine::Instruction(i) => AsmLine::Instruction(i.clone()),
            AsmLine::SectionHeader(h) => AsmLine::SectionHeader(h.clone()),
            AsmLine::Blank => AsmLine::Blank,
            AsmLine::Other => AsmLine::Other,
        }
    }
}

impl AsmLine {
    fn section_header(name: &str) -> (r: Self)
        ensures
            r@ == AsmLineView::SectionHeader(name@),
    {
        AsmLine::SectionHeader(SectionHeader(name.to_owned()))
    }
}

/// One line of disassembler output, with its classification.
pub struct Line {
    raw: String,
    inner: AsmLine,
}

impl View for Line {
    type V = LineView;

    closed spec fn view(&self) -> LineView {
        LineView { raw: self.raw@, kind: self.inner@ }
    }
}

impl Clone for Line {
    fn clone(&self) -> (r: Self)
        ensures
            r@ == self@,
    {
        Line { raw: self.raw.clone(), inner: self.inner.clone() }
    }
}

impl Default for Line {
    fn default() -> (r: Self)
        ensures
            r@ == (LineView { raw: seq![], kind: AsmLineView::Blank }),
    {
        Line { raw: String::new(), inner: AsmLine::Blank }
    }
}

impl Line {
    pub fn into_inner(self) -> (r: AsmLine)
        ensures
            r@ == self@.kind,
    {
        self.inner
    }

    pub fn inner(&self) -> (r: &AsmLine)
        ensures
            r@ == self@.kind,
    {
        &self.inner
    }

    /// The line as written.
    pub fn as_str(&self) -> (r: &str)
        ensures
            r@ == self@.raw,
    {
        self.raw.as_str()
    }

    /// Classifies one line of disassembler output.
    pub fn from_str(line: &str) -> (r: Self)
        ensures
            r@ == (LineView { raw: line@, kind: classify(line@) }),
    {
        let s = chars_of(line);
        let prefix = chars_of("Disassembly of section ");
        proof {
            lemma_header_from(s@, 0);
        }
        let inner = match header_span(&s, &prefix) {
            Some((a, b)) => {
                let name = string_of(&s, a, b);
                AsmLine::section_header(name.as_str())
            },
            None => {
                if label_span(&s).is_some() {
                    AsmLine::Label(Label::new(line))
                } else if instruction_span(&s).is_some() {
                    AsmLine::Instruction(Instruction::new(line))
                } else if blank(&s) {
                    AsmLine::Blank
                } else {
                    AsmLine::Other
                }
            },
        };
        Line { raw: line.to_owned(), inner }
    }
}

fn same_strings(a: &Vec<String>, b: &Vec<String>) -> (r: bool)
    ensures
        r == (texts(a@) == texts(b@)),
{
    if a.len() != b.len() {
        assert(texts(a@).len() != texts(b@).len());
        return false;
    }
    let mut k: usize = 0;
    while k < a.len()
        invariant
            a@.len() == b@.len(),
            k <= a@.len(),
            forall|q: int| 0 <= q < k ==> a@[q]@ == b@[q]@,
        decreases a@.len() - k,
    {
        if a[k] != b[k] {
            assert(texts(a@)[k as int] != texts(b@)[k as int]);
            return false;
        }
        k += 1;
    }
    assert(texts(a@) =~= texts(b@));
    true
}

impl AsmLine {
    /// The two classifications are equal.
    pub fn same_as(&self, other: &AsmLine) -> (r: bool)
        ensures
            r == (self@ == other@),
    {
        match (self, other) {
            (AsmLine::Label(x), AsmLine::Label(y)) => x.name == y.name && x.demangled_name
                == y.demangled_name && x.clean_name == y.clean_name && x.offset.0 == y.offset.0,
            (AsmLine::Instruction(x), AsmLine::Instruction(y)) => {
                let r = x.op == y.op && same_strings(&x.operands, &y.operands) && same_strings(
                    &x.operands_demangled,
                    &y.operands_demangled,
                ) && same_strings(&x.operands_no_hash, &y.operands_no_hash) && x.offset.0
                    == y.offset.0;
                proof {
                    if r {
                        assert(x@ == y@);
                    }
                }
                r
            },
            (AsmLine::SectionHeader(x), AsmLine::SectionHeader(y)) => x.0 == y.0,
            (AsmLine::Blank, AsmLine::Blank) => true,
            (AsmLine::Other, AsmLine::Other) => true,
            _ => false,
        }
    }
}

impl Line {
    /// Compares by mnemonic: what the line diff matches on.
    pub fn same_op(&self, other: &Line) -> (r: bool)
        ensures
            r == same_op(self@, other@),
    {
        match (&self.inner, &other.inner) {
            (AsmLine::Instruction(i), AsmLine::Instruction(j)) => i.op == j.op,
            _ => self.inner.same_as(&other.inner),
        }
    }

    /// Compares by instruction text: a match by mnemonic whose text differs
    /// is a partial match.
    pub fn same_content(&self, other: &Line) -> (r: bool)
        ensures
            r == same_content(self@, other@),
    {
        match (&self.inner, &other.inner) {
            (AsmLine::Instruction(i), AsmLine::Instruction(j)) => {
                let a = i.content();
                let b = j.content();
                a == b
            },
            _ => self.inner.same_as(&other.inner),
        }
    }

    /// Compares labels by demangled name, without hashes when `no_hash`.
    pub fn same_label(&self, other: &Line, no_hash: bool) -> (r: bool)
        ensures
            r == same_label(self@, other@, no_hash),
    {
        match (&self.inner, &other.inner) {
            (AsmLine::Label(a), AsmLine::Label(b)) => if no_hash {
                a.clean_name == b.clean_name
            } else {
                a.demangled_name == b.demangled_name
            },
            _ => self.inner.same_as(&other.inner),
        }
    }

    /// Compares section headers by name.
    pub fn same_section(&self, other: &Line) -> (r: bool)
        ensures
            r == same_section(self@, other@),
    {
        match (&self.inner, &other.inner) {
            (AsmLine::SectionHeader(a), AsmLine::SectionHeader(b)) => a.0 == b.0,
            _ => self.inner.same_as(&other.inner),
        }
    }

    /// How a label is shown: its demangled name; other lines as written.
    pub fn label_text(&self) -> (r: &str)
        ensures
            r@ == match self@.kind {
                AsmLineView::Label(l) => l.demangled_name,
                _ => self@.raw,
            },
    {
        match &self.inner {
            AsmLine::Label(l) => l.demangled_name(),
            _ => self.raw.as_str(),
        }
    }

    /// How a section header is shown: its name; other lines as written.
    pub fn section_text(&self) -> (r: &str)
        ensures
            r@ == match self@.kind {
                AsmLineView::SectionHeader(n) => n,
                _ => self@.raw,
            },
    {
        match &self.inner {
            AsmLine::SectionHeader(h) => h.name(),
            _ => self.raw.as_str(),
        }
    }
}

} // verus!
