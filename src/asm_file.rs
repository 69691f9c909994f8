//! The structural model of one disassembly: sections, the blocks that labels
//! start in them, and the lines of each block.
use vstd::prelude::*;
use crate::line::{Line, LineView, AsmLine, AsmLineView};
use crate::text::{same_text, chars_of, string_of};
use crate::grammar::{fields, field_spans, lemma_fields};
use crate::line::{classify, span};

verus! {

pub open spec fn is_header(l: LineView) -> bool {
    l.kind is SectionHeader
}

pub open spec fn is_label(l: LineView) -> bool {
    l.kind is Label
}

pub open spec fn is_instruction(l: LineView) -> bool {
    l.kind is Instruction
}

/// The views of a list of lines.
pub open spec fn lines_view(v: Seq<Line>) -> Seq<LineView> {
    v.map_values(|l: Line| l@)
}

/// A block: the label that starts it and the lines that follow the label.
pub struct BlockView {
    pub label: LineView,
    pub lines: Seq<LineView>,
}

/// A section: its header (none for lines before the first header), the lines
/// before its first label, and its blocks.
pub struct SectionView {
    pub header: Option<LineView>,
    pub prefix: Seq<LineView>,
    pub blocks: Seq<BlockView>,
}

pub open spec fn empty_section(header: Option<LineView>) -> SectionView {
    SectionView { header, prefix: seq![], blocks: seq![] }
}

/// The model after one more line: a header opens a section, a label opens a
/// block in the last section, any other line joins the last block, or the
/// section's prefix while it has no block. Lines before any header go to an
/// unnamed first section.
pub open spec fn push_line(secs: Seq<SectionView>, l: LineView) -> Seq<SectionView> {
    if is_header(l) {
        secs.push(empty_section(Some(l)))
    } else {
        let (rest, last) = if secs.len() == 0 {
            (secs, empty_section(None))
        } else {
            (secs.drop_last(), secs.last())
        };
        let grown = if is_label(l) {
            SectionView { blocks: last.blocks.push(BlockView { label: l, lines: seq![] }), ..last }
        } else if last.blocks.len() == 0 {
            SectionView { prefix: last.prefix.push(l), ..last }
        } else {
            let b = last.blocks.last();
            SectionView {
                blocks: last.blocks.update(
                    last.blocks.len() - 1,
                    BlockView { lines: b.lines.push(l), ..b },
                ),
                ..last
            }
        };
        rest.push(grown)
    }
}

/// The model built from a sequence of lines, one push at a time.
pub open spec fn build(lines: Seq<LineView>) -> Seq<SectionView>
    decreases lines.len(),
{
    if lines.len() == 0 {
        seq![]
    } else {
        push_line(build(lines.drop_last()), lines.last())
    }
}

pub open spec fn block_lines(b: BlockView) -> Seq<LineView> {
    seq![b.label] + b.lines
}

pub open spec fn blocks_lines(bs: Seq<BlockView>) -> Seq<LineView>
    decreases bs.len(),
{
    if bs.len() == 0 {
        seq![]
    } else {
        blocks_lines(bs.drop_last()) + block_lines(bs.last())
    }
}

pub open spec fn header_lines(h: Option<LineView>) -> Seq<LineView> {
    match h {
        Some(l) => seq![l],
        None => seq![],
    }
}

/// The lines of a section, in order.
pub open spec fn section_lines(s: SectionView) -> Seq<LineView> {
    header_lines(s.header) + s.prefix + blocks_lines(s.blocks)
}

/// The lines of the whole model, in order.
pub open spec fn flatten(secs: Seq<SectionView>) -> Seq<LineView>
    decreases secs.len(),
{
    if secs.len() == 0 {
        seq![]
    } else {
        flatten(secs.drop_last()) + section_lines(secs.last())
    }
}

/// The text of the headers, labels and instructions among `lines`, in order.
pub open spec fn rendered(lines: Seq<LineView>) -> Seq<Seq<char>>
    decreases lines.len(),
{
    if lines.len() == 0 {
        seq![]
    } else {
        let l = lines.last();
        if is_header(l) || is_label(l) || is_instruction(l) {
            rendered(lines.drop_last()).push(l.raw)
        } else {
            rendered(lines.drop_last())
        }
    }
}

pub proof fn lemma_push_flatten(secs: Seq<SectionView>, l: LineView)
    ensures
        flatten(push_line(secs, l)) == flatten(secs).push(l),
{
    let r = push_line(secs, l);
    assert(r.drop_last() =~= (if is_header(l) || secs.len() == 0 {
        secs
    } else {
        secs.drop_last()
    }));
    assert(blocks_lines(seq![]) =~= seq![]);
    if is_header(l) {
        assert(section_lines(empty_section(Some(l))) =~= seq![l]);
    } else {
        let last = if secs.len() == 0 {
            empty_section(None)
        } else {
            secs.last()
        };
        if secs.len() == 0 {
            assert(flatten(secs) =~= seq![]);
            assert(section_lines(last) =~= seq![]);
        } else {
            assert(flatten(secs) == flatten(secs.drop_last()) + section_lines(last));
        }
        let grown = r.last();
        if is_label(l) {
            let nb = last.blocks.push(BlockView { label: l, lines: seq![] });
            assert(nb.drop_last() =~= last.blocks);
            assert(block_lines(BlockView { label: l, lines: seq![] }) =~= seq![l]);
            assert(section_lines(grown) =~= section_lines(last).push(l));
        } else if last.blocks.len() == 0 {
            assert(section_lines(grown) =~= section_lines(last).push(l));
        } else {
            let b = last.blocks.last();
            let nb = last.blocks.update(last.blocks.len() - 1, BlockView { lines: b.lines.push(l), ..b });
            assert(nb.drop_last() =~= last.blocks.drop_last());
            assert(blocks_lines(last.blocks) == blocks_lines(last.blocks.drop_last()) + block_lines(b));
            assert(block_lines(BlockView { lines: b.lines.push(l), ..b }) =~= block_lines(b).push(l));
            assert(section_lines(grown) =~= section_lines(last).push(l));
        }
        assert(flatten(r) =~= flatten(secs).push(l));
    }
}

/// A model built from lines holds exactly those lines, in order; so the
/// headers, labels and instructions rendered from it are those of the input.
pub proof fn lemma_round_trip(lines: Seq<LineView>)
    ensures
        flatten(build(lines)) == lines,
        rendered(flatten(build(lines))) == rendered(lines),
    decreases lines.len(),
{
    if lines.len() > 0 {
        lemma_round_trip(lines.drop_last());
        lemma_push_flatten(build(lines.drop_last()), lines.last());
        assert(lines.drop_last().push(lines.last()) =~= lines);
    }
}


/// The name of a section with a header.
pub open spec fn section_name(s: SectionView) -> Option<Seq<char>> {
    match s.header {
        Some(h) => match h.kind {
            AsmLineView::SectionHeader(n) => Some(n),
            _ => None,
        },
        None => None,
    }
}

/// The header lines of the sections, in order.
pub open spec fn headers(secs: Seq<SectionView>) -> Seq<LineView>
    decreases secs.len(),
{
    if secs.len() == 0 {
        seq![]
    } else {
        headers(secs.drop_last()) + header_lines(secs.last().header)
    }
}

/// The first section at or after `k` named `name`.
pub open spec fn find_section(secs: Seq<SectionView>, name: Seq<char>, k: nat) -> Option<nat>
    decreases secs.len() - k,
{
    if k >= secs.len() {
        None
    } else if section_name(secs[k as int]) == Some(name) {
        Some(k)
    } else {
        find_section(secs, name, k + 1)
    }
}

/// The instruction lines among `lines`, in order.
pub open spec fn instructions(lines: Seq<LineView>) -> Seq<LineView>
    decreases lines.len(),
{
    if lines.len() == 0 {
        seq![]
    } else if is_instruction(lines.last()) {
        instructions(lines.drop_last()).push(lines.last())
    } else {
        instructions(lines.drop_last())
    }
}

/// The label lines of the blocks of the first section named `name`; `None`
/// when no section has that name.
pub open spec fn section_blocks(secs: Seq<SectionView>, name: Seq<char>) -> Option<Seq<LineView>> {
    match find_section(secs, name, 0) {
        Some(k) => Some(secs[k as int].blocks.map_values(|b: BlockView| b.label)),
        None => None,
    }
}

/// The instruction lines of block `id` of the first section named `name`;
/// `None` when no section has that name or it has no such block.
pub open spec fn block_instructions(secs: Seq<SectionView>, name: Seq<char>, id: nat) -> Option<
    Seq<LineView>,
> {
    match find_section(secs, name, 0) {
        Some(k) => if id < secs[k as int].blocks.len() {
            Some(instructions(secs[k as int].blocks[id as int].lines))
        } else {
            None
        },
        None => None,
    }
}

/// The lines of `text`: the pieces between line breaks, each classified.
pub open spec fn text_lines(text: Seq<char>) -> Seq<LineView> {
    fields(text, '\n', 0).map_values(
        |f: (nat, nat)| LineView { raw: span(text, f.0, f.1), kind: classify(span(text, f.0, f.1)) },
    )
}


/// Counts of section headers, labels, instructions, blank lines and other
/// lines.
pub struct Stats {
    pub sections: usize,
    pub labels: usize,
    pub instructions: usize,
    pub blanks: usize,
    pub others: usize,
}

pub open spec fn stats_view(s: Stats) -> (nat, nat, nat, nat, nat) {
    (s.sections as nat, s.labels as nat, s.instructions as nat, s.blanks as nat, s.others as nat)
}

pub open spec fn plus(a: (nat, nat, nat, nat, nat), b: (nat, nat, nat, nat, nat)) -> (nat, nat, nat, nat, nat) {
    (a.0 + b.0, a.1 + b.1, a.2 + b.2, a.3 + b.3, a.4 + b.4)
}

pub open spec fn total(a: (nat, nat, nat, nat, nat)) -> nat {
    a.0 + a.1 + a.2 + a.3 + a.4
}

/// The count of one line in each column.
pub open spec fn tally_of(l: LineView) -> (nat, nat, nat, nat, nat) {
    match l.kind {
        AsmLineView::SectionHeader(_) => (1, 0, 0, 0, 0),
        AsmLineView::Label(_) => (0, 1, 0, 0, 0),
        AsmLineView::Instruction(_) => (0, 0, 1, 0, 0),
        AsmLineView::Blank => (0, 0, 0, 1, 0),
        AsmLineView::Other => (0, 0, 0, 0, 1),
    }
}

/// The counts of `lines` by kind.
pub open spec fn tally(lines: Seq<LineView>) -> (nat, nat, nat, nat, nat)
    decreases lines.len(),
{
    if lines.len() == 0 {
        (0, 0, 0, 0, 0)
    } else {
        plus(tally(lines.drop_last()), tally_of(lines.last()))
    }
}

/// The counts of each named section's lines, header included, in order.
pub open spec fn section_tallies(secs: Seq<SectionView>) -> Seq<(nat, nat, nat, nat, nat)>
    decreases secs.len(),
{
    if secs.len() == 0 {
        seq![]
    } else if secs.last().header is Some {
        section_tallies(secs.drop_last()).push(tally(section_lines(secs.last())))
    } else {
        section_tallies(secs.drop_last())
    }
}

pub proof fn lemma_tally_append(a: Seq<LineView>, b: Seq<LineView>)
    ensures
        tally(a + b) == plus(tally(a), tally(b)),
        total(tally(b)) == b.len(),
    decreases b.len(),
{
    if b.len() == 0 {
        assert(a + b =~= a);
    } else {
        lemma_tally_append(a, b.drop_last());
        assert((a + b).drop_last() =~= a + b.drop_last());
    }
}

pub proof fn lemma_flatten_take(secs: Seq<SectionView>, j: int)
    requires
        0 <= j < secs.len(),
    ensures
        flatten(secs.take(j + 1)) == flatten(secs.take(j)) + section_lines(secs[j]),
        flatten(secs.take(j + 1)).len() <= flatten(secs).len(),
    decreases secs.len(),
{
    assert(secs.take(j + 1).drop_last() =~= secs.take(j));
    if j + 1 < secs.len() {
        lemma_flatten_take(secs.drop_last(), j);
        assert(secs.drop_last().take(j + 1) =~= secs.take(j + 1));
        assert(secs.drop_last().take(j) =~= secs.take(j));
    } else {
        assert(secs.take(j + 1) =~= secs);
    }
}

/// A block: a label and the lines after it.
pub struct Block {
    label: Line,
    lines: Vec<Line>,
}

impl View for Block {
    type V = BlockView;

    closed spec fn view(&self) -> BlockView {
        BlockView { label: self.label@, lines: lines_view(self.lines@) }
    }
}

/// A section: its header, the lines before its first label, and its blocks.
pub struct Section {
    header: Option<Line>,
    prefix: Vec<Line>,
    blocks: Vec<Block>,
}

impl View for Section {
    type V = SectionView;

    closed spec fn view(&self) -> SectionView {
        SectionView {
            header: match self.header {
                Some(h) => Some(h@),
                None => None,
            },
            prefix: lines_view(self.prefix@),
            blocks: self.blocks@.map_values(|b: Block| b@),
        }
    }
}

/// One disassembly as sections of blocks of lines.
pub struct AsmFile {
    sections: Vec<Section>,
    count: usize,
}

impl View for AsmFile {
    type V = Seq<SectionView>;

    closed spec fn view(&self) -> Seq<SectionView> {
        self.sections@.map_values(|s: Section| s@)
    }
}

fn is_header_line(l: &Line) -> (r: bool)
    ensures
        r == is_header(l@),
{
    match l.inner() {
        AsmLine::SectionHeader(_) => true,
        _ => false,
    }
}

fn is_label_line(l: &Line) -> (r: bool)
    ensures
        r == is_label(l@),
{
    match l.inner() {
        AsmLine::Label(_) => true,
        _ => false,
    }
}

fn is_instruction_line(l: &Line) -> (r: bool)
    ensures
        r == is_instruction(l@),
{
    match l.inner() {
        AsmLine::Instruction(_) => true,
        _ => false,
    }
}

impl AsmFile {
    /// The count of lines matches the model.
    pub closed spec fn wf(&self) -> bool {
        self.count == flatten(self@).len()
    }

    pub open spec fn line_count(&self) -> nat {
        flatten(self@).len()
    }

    pub fn new() -> (r: Self)
        ensures
            r@ == build(seq![]),
            r.wf(),
    {
        let r = AsmFile { sections: Vec::new(), count: 0 };
        assert(r@ =~= seq![]);
        r
    }

    /// The number of lines pushed so far.
    pub fn len(&self) -> (r: usize)
        requires
            self.wf(),
        ensures
            r == self.line_count(),
    {
        self.count
    }

    /// Adds the next line of the disassembly.
    pub fn push(&mut self, line: Line)
        requires
            old(self).wf(),
            old(self).line_count() < usize::MAX,
        ensures
            final(self).wf(),
            final(self)@ == push_line(old(self)@, line@),
    {
        let ghost before = self@;
        let ghost l = line@;
        if is_header_line(&line) {
            self.sections.push(Section { header: Some(line), prefix: Vec::new(), blocks: Vec::new() });
            proof {
                assert(self@.last().prefix =~= seq![]);
                assert(self@.last().blocks =~= seq![]);
                assert(self@.last() == empty_section(Some(l)));
                assert(self@ =~= push_line(before, l));
            }
        } else {
            if self.sections.len() == 0 {
                self.sections.push(Section { header: None, prefix: Vec::new(), blocks: Vec::new() });
                assert(self@.last().prefix =~= seq![]);
                assert(self@.last().blocks =~= seq![]);
                assert(self@.last() == empty_section(None));
            }
            let k = self.sections.len() - 1;
            let ghost mid = self@;
            assert(mid.drop_last() =~= (if before.len() == 0 { before } else { before.drop_last() }));
            if is_label_line(&line) {
                self.sections[k].blocks.push(Block { label: line, lines: Vec::new() });
            } else if self.sections[k].blocks.len() == 0 {
                self.sections[k].prefix.push(line);
            } else {
                let b = self.sections[k].blocks.len() - 1;
                self.sections[k].blocks[b].lines.push(line);
            }
            proof {
                let last = mid.last();
                let grown = self@.last();
                if is_label(l) {
                    assert(grown.blocks.last().lines =~= seq![]);
                    assert(grown.blocks =~= last.blocks.push(BlockView { label: l, lines: seq![] }));
                } else if last.blocks.len() == 0 {
                    assert(grown.prefix =~= last.prefix.push(l));
                } else {
                    let bl = last.blocks.last();
                    assert(grown.blocks[grown.blocks.len() - 1].lines =~= bl.lines.push(l));
                    assert(grown.blocks =~= last.blocks.update(
                        last.blocks.len() - 1,
                        BlockView { lines: bl.lines.push(l), ..bl },
                    ));
                }
                assert(self@.drop_last() =~= mid.drop_last());
                assert(self@ =~= push_line(before, l));
            }
        }
        self.count = self.count + 1;
        proof {
            lemma_push_flatten(before, l);
        }
    }

    fn section_named(&self, name: &str) -> (r: Option<usize>)
        ensures
            match r {
                Some(k) => find_section(self@, name@, 0) == Some(k as nat) && k < self.sections@.len()
                    && self@[k as int] == self.sections@[k as int]@,
                None => find_section(self@, name@, 0) is None,
            },
    {
        let mut k: usize = 0;
        while k < self.sections.len()
            invariant
                k <= self@.len(),
                self@.len() == self.sections@.len(),
                find_section(self@, name@, k as nat) == find_section(self@, name@, 0),
            decreases self@.len() - k,
        {
            let found = match &self.sections[k].header {
                Some(h) => match h.inner() {
                    AsmLine::SectionHeader(sh) => same_text(sh.name(), name),
                    _ => false,
                },
                None => false,
            };
            assert(found == (section_name(self@[k as int]) == Some(name@)));
            if found {
                return Some(k);
            }
            k += 1;
        }
        None
    }

    /// The section header lines, in order.
    pub fn sections(&self) -> (r: Vec<Line>)
        ensures
            lines_view(r@) == headers(self@),
    {
        let mut r: Vec<Line> = Vec::new();
        let mut k: usize = 0;
        while k < self.sections.len()
            invariant
                k <= self@.len(),
                self@.len() == self.sections@.len(),
                lines_view(r@) == headers(self@.take(k as int)),
            decreases self@.len() - k,
        {
            let ghost before = r@;
            match &self.sections[k].header {
                Some(h) => {
                    r.push(h.clone());
                },
                None => {},
            }
            proof {
                let t = self@.take(k + 1);
                assert(t.drop_last() =~= self@.take(k as int));
                assert(t.last() == self@[k as int]);
                assert(lines_view(r@) =~= headers(t));
            }
            k += 1;
        }
        assert(self@.take(k as int) =~= self@);
        r
    }

    /// The label lines of the blocks of the first section named `name`, or
    /// `None` if there is none.
    pub fn get_section_blocks(&self, name: &str) -> (r: Option<Vec<Line>>)
        ensures
            match r {
                Some(v) => section_blocks(self@, name@) == Some(lines_view(v@)),
                None => section_blocks(self@, name@) is None,
            },
    {
        match self.section_named(name) {
            Some(k) => {
                let sec = &self.sections[k];
                let ghost bs = self@[k as int].blocks;
                assert(bs == sec@.blocks);
                let mut r: Vec<Line> = Vec::new();
                let mut j: usize = 0;
                while j < sec.blocks.len()
                    invariant
                        bs == sec@.blocks,
                        bs.len() == sec.blocks@.len(),
                        j <= bs.len(),
                        lines_view(r@) == bs.take(j as int).map_values(|b: BlockView| b.label),
                    decreases bs.len() - j,
                {
                    let ghost before = r@;
                    let lab = sec.blocks[j].label.clone();
                    assert(lab@ == bs[j as int].label);
                    r.push(lab);
                    proof {
                        assert(lines_view(r@) =~= lines_view(before).push(lab@));
                        assert(bs[j as int] == sec.blocks@[j as int]@);
                        assert(bs.take(j + 1).drop_last() =~= bs.take(j as int));
                        assert(lines_view(r@) =~= bs.take(j + 1).map_values(|b: BlockView| b.label));
                    }
                    j += 1;
                }
                assert(bs.take(j as int) =~= bs);
                Some(r)
            },
            None => None,
        }
    }

    /// The instruction lines of block `block_id` of the first section named
    /// `section`, or `None` if there is no such section or block.
    pub fn get_block_lines(&self, section: &str, block_id: usize) -> (r: Option<Vec<Line>>)
        ensures
            match r {
                Some(v) => block_instructions(self@, section@, block_id as nat) == Some(lines_view(v@)),
                None => block_instructions(self@, section@, block_id as nat) is None,
            },
    {
        match self.section_named(section) {
            Some(k) => {
                let sec = &self.sections[k];
                assert(self@[k as int].blocks.len() == sec.blocks@.len());
                if block_id >= sec.blocks.len() {
                    return None;
                }
                let block = &sec.blocks[block_id];
                let ghost ls = block@.lines;
                assert(self@[k as int].blocks[block_id as int] == block@);
                let mut r: Vec<Line> = Vec::new();
                let mut j: usize = 0;
                while j < block.lines.len()
                    invariant
                        ls == block@.lines,
                        ls.len() == block.lines@.len(),
                        j <= ls.len(),
                        lines_view(r@) == instructions(ls.take(j as int)),
                    decreases ls.len() - j,
                {
                    let l = &block.lines[j];
                    if is_instruction_line(l) {
                        r.push(l.clone());
                    }
                    proof {
                        let t = ls.take(j + 1);
                        assert(t.drop_last() =~= ls.take(j as int));
                        assert(t.last() == l@);
                        assert(lines_view(r@) =~= instructions(t));
                    }
                    j += 1;
                }
                assert(ls.take(j as int) =~= ls);
                Some(r)
            },
            None => None,
        }
    }

    /// The model of a whole disassembly text, one line per piece between line
    /// breaks.
    pub fn read_asm(text: &str) -> (r: Self)
        requires
            text@.len() < usize::MAX,
        ensures
            r.wf(),
            r@ == build(text_lines(text@)),
    {
        let s = chars_of(text);
        let spans = field_spans(&s, '\n', 0);
        proof {
            lemma_fields(s@, '\n', 0);
        }
        let ghost all = text_lines(text@);
        let mut model = AsmFile::new();
        let mut k: usize = 0;
        while k < spans.len()
            invariant
                s@ == text@,
                text@.len() < usize::MAX,
                spans@.len() == fields(s@, '\n', 0).len(),
                spans@.len() <= s@.len() + 1,
                forall|q: int|
                    0 <= q < spans@.len() ==> spans@[q].0 == fields(s@, '\n', 0)[q].0 && spans@[q].1
                        == fields(s@, '\n', 0)[q].1,
                forall|q: int|
                    0 <= q < fields(s@, '\n', 0).len() ==> (#[trigger] fields(s@, '\n', 0)[q]).0
                        <= fields(s@, '\n', 0)[q].1 <= s@.len(),
                all == text_lines(text@),
                k <= spans@.len(),
                model.wf(),
                model@ == build(all.take(k as int)),
                model.line_count() == k,
            decreases spans@.len() - k,
        {
            let (a, b) = spans[k];
            assert(fields(s@, '\n', 0)[k as int].0 <= fields(s@, '\n', 0)[k as int].1 <= s@.len());
            let piece = string_of(&s, a, b);
            let line = Line::from_str(piece.as_str());
            proof {
                lemma_round_trip(all.take(k as int));
                let t = all.take(k + 1);
                assert(t.drop_last() =~= all.take(k as int));
                assert(t.last() == line@);
            }
            model.push(line);
            proof {
                lemma_round_trip(all.take(k + 1));
            }
            k += 1;
        }
        assert(all.take(k as int) =~= all);
        model
    }


    /// Counts the lines of the whole disassembly by kind.
    pub fn get_stats(&self) -> (r: Stats)
        requires
            self.wf(),
        ensures
            stats_view(r) == tally(flatten(self@)),
    {
        let mut acc = Stats { sections: 0, labels: 0, instructions: 0, blanks: 0, others: 0 };
        let mut k: usize = 0;
        while k < self.sections.len()
            invariant
                self.wf(),
                k <= self@.len(),
                self@.len() == self.sections@.len(),
                stats_view(acc) == tally(flatten(self@.take(k as int))),
                total(stats_view(acc)) == flatten(self@.take(k as int)).len(),
            decreases self@.len() - k,
        {
            proof {
                lemma_flatten_take(self@, k as int);
                lemma_tally_append(flatten(self@.take(k as int)), section_lines(self@[k as int]));
                assert(self@[k as int] == self.sections@[k as int]@);
            }
            acc = tally_section(&self.sections[k], acc);
            k += 1;
        }
        assert(self@.take(k as int) =~= self@);
        acc
    }

    /// Counts the lines of each named section by kind, its header included,
    /// in the order of `sections`.
    pub fn section_stats(&self) -> (r: Vec<Stats>)
        requires
            self.wf(),
        ensures
            r@.map_values(|x: Stats| stats_view(x)) == section_tallies(self@),
    {
        let mut r: Vec<Stats> = Vec::new();
        let mut k: usize = 0;
        while k < self.sections.len()
            invariant
                self.wf(),
                k <= self@.len(),
                self@.len() == self.sections@.len(),
                r@.map_values(|x: Stats| stats_view(x)) == section_tallies(self@.take(k as int)),
            decreases self@.len() - k,
        {
            let ghost before = r@;
            proof {
                lemma_flatten_take(self@, k as int);
                assert(self@[k as int] == self.sections@[k as int]@);
            }
            let sec = &self.sections[k];
            if sec.header.is_some() {
                let zero = Stats { sections: 0, labels: 0, instructions: 0, blanks: 0, others: 0 };
                let st = tally_section(sec, zero);
                r.push(st);
                proof {
                    assert(r@.map_values(|x: Stats| stats_view(x)) =~= before.map_values(
                        |x: Stats| stats_view(x),
                    ).push(stats_view(st)));
                }
            }
            proof {
                let t = self@.take(k + 1);
                assert(t.drop_last() =~= self@.take(k as int));
                assert(t.last() == self@[k as int]);
            }
            k += 1;
        }
        assert(self@.take(k as int) =~= self@);
        r
    }
}

fn add_line(acc: &mut Stats, l: &Line)
    requires
        total(stats_view(*old(acc))) < usize::MAX,
    ensures
        stats_view(*final(acc)) == plus(stats_view(*old(acc)), tally_of(l@)),
{
    match l.inner() {
        AsmLine::SectionHeader(_) => acc.sections = acc.sections + 1,
        AsmLine::Label(_) => acc.labels = acc.labels + 1,
        AsmLine::Instruction(_) => acc.instructions = acc.instructions + 1,
        AsmLine::Blank => acc.blanks = acc.blanks + 1,
        AsmLine::Other => acc.others = acc.others + 1,
    }
}

fn add_lines(acc: &mut Stats, v: &Vec<Line>)
    requires
        total(stats_view(*old(acc))) + v@.len() <= usize::MAX,
    ensures
        stats_view(*final(acc)) == plus(stats_view(*old(acc)), tally(lines_view(v@))),
{
    let ghost start = stats_view(*acc);
    let mut k: usize = 0;
    while k < v.len()
        invariant
            k <= v@.len(),
            total(start) + v@.len() <= usize::MAX,
            stats_view(*acc) == plus(start, tally(lines_view(v@).take(k as int))),
            total(tally(lines_view(v@).take(k as int))) == k,
        decreases v@.len() - k,
    {
        proof {
            let t = lines_view(v@).take(k + 1);
            assert(t.drop_last() =~= lines_view(v@).take(k as int));
            assert(t.last() == v@[k as int]@);
        }
        add_line(acc, &v[k]);
        k += 1;
    }
    assert(lines_view(v@).take(k as int) =~= lines_view(v@));
}

/// `acc` plus the counts of the lines of `sec`.
fn tally_section(sec: &Section, acc: Stats) -> (r: Stats)
    requires
        total(stats_view(acc)) + section_lines(sec@).len() <= usize::MAX,
    ensures
        stats_view(r) == plus(stats_view(acc), tally(section_lines(sec@))),
{
    let mut acc = acc;
    let ghost start = stats_view(acc);
    let ghost head = header_lines(sec@.header);
    let ghost pre = sec@.prefix;
    proof {
        lemma_tally_append(head + pre, blocks_lines(sec@.blocks));
        lemma_tally_append(head, pre);
        lemma_tally_append(seq![], head);
        assert(seq![] + head =~= head);
    }
    match &sec.header {
        Some(h) => {
            add_line(&mut acc, h);
            proof {
                assert(head.drop_last() =~= seq![]);
            }
        },
        None => {},
    }
    add_lines(&mut acc, &sec.prefix);
    let mut j: usize = 0;
    let ghost bs = sec@.blocks;
    while j < sec.blocks.len()
        invariant
            bs == sec@.blocks,
            bs.len() == sec.blocks@.len(),
            j <= bs.len(),
            total(start) + section_lines(sec@).len() <= usize::MAX,
            section_lines(sec@) == head + pre + blocks_lines(bs),
            stats_view(acc) == plus(plus(start, tally(head + pre)), tally(blocks_lines(bs.take(j as int)))),
            total(tally(head + pre)) == (head + pre).len(),
            total(tally(blocks_lines(bs.take(j as int)))) == blocks_lines(bs.take(j as int)).len(),
            blocks_lines(bs.take(j as int)).len() <= blocks_lines(bs).len(),
        decreases bs.len() - j,
    {
        let b = &sec.blocks[j];
        proof {
            let t = bs.take(j + 1);
            assert(t.drop_last() =~= bs.take(j as int));
            assert(t.last() == b@);
            lemma_tally_append(blocks_lines(bs.take(j as int)), block_lines(b@));
            lemma_tally_append(seq![b@.label], b@.lines);
            lemma_tally_append(seq![], seq![b@.label]);
            assert(seq![] + seq![b@.label] =~= seq![b@.label]);
            assert(seq![b@.label].drop_last() =~= seq![]);
            lemma_blocks_prefix(bs, j as int + 1);
        }
        add_line(&mut acc, &b.label);
        add_lines(&mut acc, &b.lines);
        j += 1;
    }
    assert(bs.take(j as int) =~= bs);
    acc
}

pub proof fn lemma_blocks_prefix(bs: Seq<BlockView>, j: int)
    requires
        0 <= j <= bs.len(),
    ensures
        blocks_lines(bs.take(j)).len() <= blocks_lines(bs).len(),
    decreases bs.len(),
{
    if j < bs.len() {
        lemma_blocks_prefix(bs.drop_last(), j);
        assert(bs.drop_last().take(j) =~= bs.take(j));
    } else {
        assert(bs.take(j) =~= bs);
    }
}

} // verus!
