//! What a verification unit reads, as ranges of the container's file.
//!
//! A host that fetches a container piece by piece asks for a unit's footprint before it runs the
//! unit. A unit first says which bytes of which members it reads; where members lie in the file
//! then says which bytes of the file those are.

use crate::bytes;
use crate::container;
use crate::container::{Container, MemberView};
use crate::fold;
use crate::fold::{BlockView, Fold, FoldView, Loc};
use crate::part;
use crate::part::{Part, PartView};
use crate::store::liveness;
use crate::store::names;
use crate::store::names::SEG_HDR_LEN;
use crate::store::namespace;
use crate::store::open::{ReadStore, ReadStoreView};
use crate::store::source;
use crate::store::source::{EnvView, UnitView, VerifyUnit};
use crate::store::source_plan;
use crate::store::source_run::SourceVerifier;
use crate::store::verify;
use crate::store::verify::Authority;
use crate::text;
use crate::types;
use crate::types::{Content, ContentOp, ContentView, OpView};
use vstd::prelude::*;
use vstd::utf8::*;

verus! {

/// One section of a part's file.
#[derive(Debug, PartialEq, Eq)]
pub struct SectionRange {
    pub name: String,
    pub off: u64,
    pub stored: u64,
}

/// View of a [`SectionRange`].
pub struct SectionView {
    pub name: Seq<char>,
    pub off: u64,
    pub stored: u64,
}

impl View for SectionRange {
    type V = SectionView;

    open spec fn view(&self) -> SectionView {
        SectionView { name: self.name@, off: self.off, stored: self.stored }
    }
}

/// Views of sections.
pub open spec fn sections_view(sections: Seq<SectionRange>) -> Seq<SectionView> {
    Seq::new(sections.len(), |i: int| sections[i]@)
}

/// Where a member lies: its extents, as offset and length in the file, and a part's sections
/// inside it.
#[derive(Debug, PartialEq, Eq)]
pub struct MemberLayout {
    pub extents: Vec<(u64, u64)>,
    pub sections: Vec<SectionRange>,
}

/// View of a [`MemberLayout`].
pub struct LayoutView {
    pub extents: Seq<(u64, u64)>,
    pub sections: Seq<SectionView>,
}

impl View for MemberLayout {
    type V = LayoutView;

    open spec fn view(&self) -> LayoutView {
        LayoutView { extents: self.extents@, sections: sections_view(self.sections@) }
    }
}

/// Views of layouts.
pub open spec fn layouts_view(layout: Seq<MemberLayout>) -> Seq<LayoutView> {
    Seq::new(layout.len(), |i: int| layout[i]@)
}

/// Why a unit has no footprint.
#[derive(Clone, Copy, Debug, PartialEq, Eq, Structural)]
pub enum FootprintError {
    /// There is no such unit.
    NoUnit,
    /// The container does not hold the member.
    NoMember,
    /// The part has no such section.
    NoSection,
    /// There is no such part, or no such authority.
    NoPart,
    /// A piece is not in the dictionary of the part that uses it.
    NoPiece,
    /// A block is outside the authority's fold.
    NoBlock { block_id: u32 },
}

/// Bytes of a member: a name, an offset and a length.
pub struct ReadView {
    pub member: Seq<char>,
    pub off: u64,
    pub len: u64,
}

/// Bytes of a member.
#[derive(Debug, PartialEq, Eq)]
pub struct MemberRead {
    pub member: String,
    pub off: u64,
    pub len: u64,
}

impl View for MemberRead {
    type V = ReadView;

    open spec fn view(&self) -> ReadView {
        ReadView { member: self.member@, off: self.off, len: self.len }
    }
}

/// Views of reads.
pub open spec fn reads_view(reads: Seq<MemberRead>) -> Seq<ReadView> {
    Seq::new(reads.len(), |i: int| reads[i]@)
}

// ---------------------------------------------------------------------------------------------
// From members to the file.
// ---------------------------------------------------------------------------------------------
/// Where in the file a byte of a member lies.
pub open spec fn address(extents: Seq<(u64, u64)>, p: int) -> Option<int>
    decreases extents.len(),
{
    if extents.len() == 0 || p < 0 {
        None
    } else if p < extents[0].1 {
        Some(extents[0].0 + p)
    } else {
        address(extents.drop_first(), p - extents[0].1)
    }
}

/// Whether a range of a member holds a byte of the file.
pub open spec fn reaches(extents: Seq<(u64, u64)>, off: int, len: int, x: int) -> bool {
    exists|p: int| off <= p < off + len && #[trigger] address(extents, p) == Some(x)
}

/// Every member's extents lie in a file.
pub open spec fn layout_ok(layout: Seq<LayoutView>) -> bool {
    forall|i: int| 0 <= i < layout.len() ==> verify::addressable((#[trigger] layout[i]).extents)
}

/// A range past the first extent is one of the rest.
proof fn lemma_reaches_past(extents: Seq<(u64, u64)>, off: int, len: int, x: int)
    requires
        extents.len() > 0,
        off >= extents[0].1,
    ensures
        reaches(extents, off, len, x) <==> reaches(
            extents.drop_first(),
            off - extents[0].1,
            len,
            x,
        ),
{
    let n = extents[0].1 as int;
    let rest = extents.drop_first();
    if reaches(extents, off, len, x) {
        let p = choose|p: int| off <= p < off + len && #[trigger] address(extents, p) == Some(x);
        assert(address(rest, p - n) == Some(x));
    }
    if reaches(rest, off - n, len, x) {
        let p = choose|p: int|
            off - n <= p < off - n + len && #[trigger] address(rest, p) == Some(x);
        assert(address(extents, p + n) == Some(x));
    }
}

/// A range that begins in the first extent is what it takes from it, and the rest.
proof fn lemma_reaches_first(extents: Seq<(u64, u64)>, off: int, len: int, take: int, x: int)
    requires
        extents.len() > 0,
        0 <= off < extents[0].1,
        0 <= len,
        take == if len < extents[0].1 - off {
            len
        } else {
            extents[0].1 - off
        },
    ensures
        reaches(extents, off, len, x) <==> extents[0].0 + off <= x < extents[0].0 + off + take
            || reaches(extents.drop_first(), 0, len - take, x),
{
    let n = extents[0].1 as int;
    let rest = extents.drop_first();
    if reaches(extents, off, len, x) {
        let p = choose|p: int| off <= p < off + len && #[trigger] address(extents, p) == Some(x);
        if p >= n {
            assert(address(rest, p - n) == Some(x));
        }
    }
    if extents[0].0 + off <= x < extents[0].0 + off + take {
        assert(address(extents, x - extents[0].0) == Some(x));
    }
    if reaches(rest, 0, len - take, x) {
        let p = choose|p: int| 0 <= p < len - take && #[trigger] address(rest, p) == Some(x);
        assert(address(extents, p + n) == Some(x));
    }
}

/// The ranges of the file that a range of a member lies in.
pub fn physical_ranges(extents: &Vec<(u64, u64)>, off: u64, len: u64) -> (r: Vec<(u64, u64)>)
    requires
        verify::addressable(extents@),
    ensures
        verify::addressable(r@),
        forall|x: int| #[trigger]
            verify::covers(r@, x) <==> reaches(extents@, off as int, len as int, x),
{
    let mut out: Vec<(u64, u64)> = Vec::new();
    let mut ahead: u64 = off;
    let mut left: u64 = len;
    let mut i: usize = 0;
    assert(extents@.skip(0) =~= extents@);
    while i < extents.len()
        invariant
            verify::addressable(extents@),
            verify::addressable(out@),
            i <= extents@.len(),
            forall|x: int| #[trigger]
                verify::covers(out@, x) || reaches(
                    extents@.skip(i as int),
                    ahead as int,
                    left as int,
                    x,
                ) <==> reaches(extents@, off as int, len as int, x),
        decreases extents.len() - i,
    {
        let (at, n) = extents[i];
        let ghost here = extents@.skip(i as int);
        let ghost rest = extents@.skip(i + 1);
        let ghost before = out@;
        let ghost (ahead0, left0) = (ahead, left);
        assert(extents@[i as int].0 + extents@[i as int].1 <= u64::MAX);
        assert(here.drop_first() =~= rest);
        assert(here[0] == (at, n));
        if ahead >= n {
            ahead = ahead - n;
        } else {
            let take: u64 = if left < n - ahead {
                left
            } else {
                n - ahead
            };
            out.push((at + ahead, take));
            left = left - take;
            ahead = 0;
        }
        i = i + 1;
        proof {
            assert forall|x: int| #[trigger]
                verify::covers(out@, x) || reaches(
                    extents@.skip(i as int),
                    ahead as int,
                    left as int,
                    x,
                ) <==> reaches(extents@, off as int, len as int, x) by {
                assert(verify::covers(before, x) || reaches(
                    here,
                    ahead0 as int,
                    left0 as int,
                    x,
                ) <==> reaches(extents@, off as int, len as int, x));
                if ahead0 >= n {
                    lemma_reaches_past(here, ahead0 as int, left0 as int, x);
                } else {
                    lemma_reaches_first(here, ahead0 as int, left0 as int, left0 - left, x);
                    lemma_covers_push(before, (at + ahead0) as u64, (left0 - left) as u64, x);
                }
            }
        }
    }
    proof {
        assert(extents@.skip(i as int).len() == 0);
        assert forall|x: int| #[trigger]
            verify::covers(out@, x) <==> reaches(extents@, off as int, len as int, x) by {
            assert(!reaches(extents@.skip(i as int), ahead as int, left as int, x)) by {
                assert forall|p: int| #[trigger] address(extents@.skip(i as int), p) is None by {}
            }
            assert(verify::covers(out@, x) || reaches(
                extents@.skip(i as int),
                ahead as int,
                left as int,
                x,
            ) <==> reaches(extents@, off as int, len as int, x));
        }
    }
    out
}

proof fn lemma_covers_push(ranges: Seq<(u64, u64)>, at: u64, len: u64, x: int)
    ensures
        verify::covers(ranges.push((at, len)), x) <==> verify::covers(ranges, x) || at <= x < at
            + len,
{
    let all = ranges.push((at, len));
    if verify::covers(ranges, x) {
        let k = choose|k: int|
            0 <= k < ranges.len() && (#[trigger] ranges[k]).0 <= x < ranges[k].0 + ranges[k].1;
        assert(all[k].0 <= x < all[k].0 + all[k].1);
    }
    if at <= x < at + len {
        assert(all[ranges.len() as int].0 <= x < all[ranges.len() as int].0 + all[
        ranges.len() as int].1);
    }
    if verify::covers(all, x) {
        let k = choose|k: int|
            0 <= k < all.len() && (#[trigger] all[k]).0 <= x < all[k].0 + all[k].1;
        if k < ranges.len() {
            assert(ranges[k].0 <= x < ranges[k].0 + ranges[k].1);
        }
    }
}

proof fn lemma_covers_add(a: Seq<(u64, u64)>, b: Seq<(u64, u64)>, x: int)
    ensures
        verify::covers(a + b, x) <==> verify::covers(a, x) || verify::covers(b, x),
{
    let all = a + b;
    if verify::covers(a, x) {
        let k = choose|k: int| 0 <= k < a.len() && (#[trigger] a[k]).0 <= x < a[k].0 + a[k].1;
        assert(all[k].0 <= x < all[k].0 + all[k].1);
    }
    if verify::covers(b, x) {
        let k = choose|k: int| 0 <= k < b.len() && (#[trigger] b[k]).0 <= x < b[k].0 + b[k].1;
        assert(all[k + a.len()] == b[k]);
        assert(all[k + a.len()].0 <= x < all[k + a.len()].0 + all[k + a.len()].1);
    }
    if verify::covers(all, x) {
        let k = choose|k: int|
            0 <= k < all.len() && (#[trigger] all[k]).0 <= x < all[k].0 + all[k].1;
        if k < a.len() {
            assert(a[k].0 <= x < a[k].0 + a[k].1);
        } else {
            assert(b[k - a.len()].0 <= x < b[k - a.len()].0 + b[k - a.len()].1);
        }
    }
}

/// Whether one read touches a byte of the file.
pub open spec fn read_touches(ms: Seq<MemberView>, layout: Seq<LayoutView>, r: ReadView, x: int) -> bool {
    container::position_of(ms, r.member) matches Some(i) && reaches(
        layout[i].extents,
        r.off as int,
        r.len as int,
        x,
    )
}

/// Whether one of the first `n` reads touches a byte of the file.
pub open spec fn touched(
    ms: Seq<MemberView>,
    layout: Seq<LayoutView>,
    reads: Seq<ReadView>,
    n: nat,
    x: int,
) -> bool
    decreases n,
{
    if n == 0 {
        false
    } else {
        touched(ms, layout, reads, (n - 1) as nat, x) || read_touches(ms, layout, reads[n - 1], x)
    }
}

/// Whether a container holds the members of the first `n` reads.
pub open spec fn members_held(ms: Seq<MemberView>, reads: Seq<ReadView>, n: nat) -> bool {
    forall|k: int| 0 <= k < n ==> container::position_of(ms, (#[trigger] reads[k]).member) is Some
}

/// The ranges of the file that reads touch.
pub fn place(c: &Container, layout: &Vec<MemberLayout>, reads: &Vec<MemberRead>) -> (r: Result<
    Vec<(u64, u64)>,
    FootprintError,
>)
    requires
        layout@.len() == c@.members.len(),
        layout_ok(layouts_view(layout@)),
    ensures
        ({
            let ms = c@.members;
            let all = reads_view(reads@);
            match r {
                Ok(ranges) => {
                    &&& members_held(ms, all, all.len())
                    &&& verify::apart(ranges@)
                    &&& verify::addressable(ranges@)
                    &&& forall|x: int| #[trigger]
                        verify::covers(ranges@, x) <==> touched(
                            ms,
                            layouts_view(layout@),
                            all,
                            all.len(),
                            x,
                        )
                },
                Err(e) => e == FootprintError::NoMember && !members_held(ms, all, all.len()),
            }
        }),
{
    let ghost ms = c@.members;
    let ghost lay = layouts_view(layout@);
    let ghost all = reads_view(reads@);
    let mut out: Vec<(u64, u64)> = Vec::new();
    let mut i: usize = 0;
    while i < reads.len()
        invariant
            ms == c@.members,
            lay == layouts_view(layout@),
            all == reads_view(reads@),
            layout@.len() == ms.len(),
            layout_ok(lay),
            i <= reads@.len(),
            members_held(ms, all, i as nat),
            verify::addressable(out@),
            forall|x: int| #[trigger]
                verify::covers(out@, x) <==> touched(ms, lay, all, i as nat, x),
        decreases reads.len() - i,
    {
        let read = &reads[i];
        assert(all[i as int] == read@);
        let at: usize = match c.find(read.member.as_str()) {
            Some(at) => at,
            None => {
                assert(container::position_of(ms, all[i as int].member) is None);
                return Err(FootprintError::NoMember);
            },
        };
        assert(lay[at as int] == layout@[at as int]@);
        let mut more = physical_ranges(&layout[at].extents, read.off, read.len);
        let ghost before = out@;
        let ghost added = more@;
        out.append(&mut more);
        proof {
            assert(out@ =~= before + added);
            assert forall|x: int| #[trigger]
                verify::covers(out@, x) <==> touched(ms, lay, all, (i + 1) as nat, x) by {
                lemma_covers_add(before, added, x);
                assert(verify::covers(added, x) <==> reaches(
                    lay[at as int].extents,
                    read.off as int,
                    read.len as int,
                    x,
                ));
                assert(verify::covers(before, x) <==> touched(ms, lay, all, i as nat, x));
            }
        }
        i = i + 1;
    }
    Ok(verify::coalesce(out))
}

// ---------------------------------------------------------------------------------------------
// What a unit reads.
// ---------------------------------------------------------------------------------------------
/// Where the frame after the first `n` blocks begins in a segment.
pub open spec fn frame_start(blocks: Seq<BlockView>, seg: u32, n: nat) -> u64
    decreases n,
{
    if n == 0 {
        SEG_HDR_LEN
    } else if blocks[n - 1].segment == seg {
        blocks[n - 1].end
    } else {
        frame_start(blocks, seg, (n - 1) as nat)
    }
}

/// The length of a range; none where it is inverted.
pub open spec fn span(start: u64, stop: u64) -> u64 {
    if start < stop {
        (stop - start) as u64
    } else {
        0
    }
}

/// The read of one block's frame.
pub open spec fn frame_read(s: ReadStoreView, id: u32) -> ReadView {
    let b = s.fold.blocks[id as int];
    let start = frame_start(s.fold.blocks, b.segment, id as nat);
    ReadView {
        member: text::chars(names::segment_name(s.manifest.fold_gen, b.segment)),
        off: start,
        len: span(start, b.end),
    }
}

/// The blocks of the first `n` locations, each once, but for those given up.
pub open spec fn needed(f: FoldView, locs: Seq<Loc>, n: nat) -> Seq<u32>
    decreases n,
{
    if n == 0 {
        Seq::empty()
    } else {
        let before = needed(f, locs, (n - 1) as nat);
        let id = locs[n - 1].block_id;
        if fold::in_ranges(f.punched, id) || before.contains(id) {
            before
        } else {
            before.push(id)
        }
    }
}

/// The first of the first `n` blocks that is outside a fold.
pub open spec fn block_fault(f: FoldView, ids: Seq<u32>, n: nat) -> Option<FootprintError>
    decreases n,
{
    if n == 0 {
        None
    } else {
        match block_fault(f, ids, (n - 1) as nat) {
            Some(e) => Some(e),
            None => if ids[n - 1] >= f.blocks.len() {
                Some(FootprintError::NoBlock { block_id: ids[n - 1] })
            } else {
                None
            },
        }
    }
}

/// The reads of frames.
pub open spec fn frame_reads(s: ReadStoreView, ids: Seq<u32>) -> Seq<ReadView> {
    Seq::new(ids.len(), |i: int| frame_read(s, ids[i]))
}

/// Whether a section holds dictionaries.
pub open spec fn dictionary_section(name: Seq<char>) -> bool {
    bytes::starts_with(encode_utf8(name), encode_utf8("pdict."@))
}

/// Whether a section holds what values are made of.
pub open spec fn content_section(name: Seq<char>) -> bool {
    name == "cmeta"@ || bytes::starts_with(encode_utf8(name), encode_utf8("con."@))
        || dictionary_section(name)
}

/// The reads of those of the first `n` sections that are wanted.
pub open spec fn section_reads(
    member: Seq<char>,
    sections: Seq<SectionView>,
    content: bool,
    n: nat,
) -> Seq<ReadView>
    decreases n,
{
    if n == 0 {
        Seq::empty()
    } else {
        let before = section_reads(member, sections, content, (n - 1) as nat);
        let s = sections[n - 1];
        if dictionary_section(s.name) || (content && content_section(s.name)) {
            before.push(ReadView { member, off: s.off, len: s.stored })
        } else {
            before
        }
    }
}

/// The reads of the manifests among the first `n` members.
pub open spec fn manifest_reads(ms: Seq<MemberView>, n: nat) -> Seq<ReadView>
    decreases n,
{
    if n == 0 {
        Seq::empty()
    } else {
        let before = manifest_reads(ms, (n - 1) as nat);
        let m = ms[n - 1];
        if m.name == "MANIFEST"@ || namespace::claims_retained(m.name) {
            before.push(ReadView { member: m.name, off: 0, len: m.bytes.len() as u64 })
        } else {
            before
        }
    }
}

/// The contents of a row's record.
pub open spec fn row_contents(p: PartView, row: usize) -> Seq<ContentView> {
    match p.rows[row as int].record {
        Some(r) => r.contents,
        None => Seq::empty(),
    }
}

/// The locations that the first `n` of some rows use.
pub open spec fn window_locs(p: PartView, rows: Seq<usize>, n: nat) -> Seq<Loc>
    decreases n,
{
    if n == 0 {
        Seq::empty()
    } else {
        let contents = row_contents(p, rows[n - 1]);
        liveness::contents_locs(
            p.pieces,
            contents,
            contents.len(),
            window_locs(p, rows, (n - 1) as nat),
        )
    }
}

/// Whether every piece of a program's first `n` steps is in a dictionary.
pub open spec fn program_resolves(dict: Seq<(Seq<u8>, Loc)>, ops: Seq<OpView>, n: nat) -> bool {
    forall|i: int|
        0 <= i < n ==> ((#[trigger] ops[i]) matches OpView::Piece { hash, len: _ } ==> part::find_loc(
            dict,
            hash,
        ) is Some)
}

/// Whether every piece of the first `n` contents is in a dictionary.
pub open spec fn contents_resolve(
    dict: Seq<(Seq<u8>, Loc)>,
    contents: Seq<ContentView>,
    n: nat,
) -> bool {
    forall|i: int|
        0 <= i < n ==> program_resolves(
            dict,
            (#[trigger] contents[i]).ops,
            contents[i].ops.len(),
        )
}

/// Whether every piece of the first `n` of some rows is in their part's dictionary.
pub open spec fn rows_resolve(p: PartView, rows: Seq<usize>, n: nat) -> bool {
    forall|i: int|
        0 <= i < n ==> contents_resolve(
            p.pieces,
            row_contents(p, #[trigger] rows[i]),
            row_contents(p, rows[i]).len(),
        )
}

/// The locations of a dictionary.
pub open spec fn dictionary_locs(dict: Seq<(Seq<u8>, Loc)>) -> Seq<Loc> {
    Seq::new(dict.len(), |i: int| dict[i].1)
}

/// What a unit reads of a part's sections and of the frames its locations need.
pub open spec fn part_reads(
    s: ReadStoreView,
    member: Seq<char>,
    sections: Seq<SectionView>,
    content: bool,
    locs: Seq<Loc>,
) -> Result<Seq<ReadView>, FootprintError> {
    let ids = needed(s.fold, locs, locs.len());
    match block_fault(s.fold, ids, ids.len()) {
        Some(e) => Err(e),
        None => Ok(
            section_reads(member, sections, content, sections.len()) + frame_reads(s, ids),
        ),
    }
}

/// The sections of a member.
pub open spec fn sections_at(ms: Seq<MemberView>, lay: Seq<LayoutView>, name: Seq<char>) -> Seq<
    SectionView,
> {
    match container::position_of(ms, name) {
        Some(i) => lay[i].sections,
        None => Seq::empty(),
    }
}

/// What a unit reads.
pub open spec fn unit_reads(e: EnvView, lay: Seq<LayoutView>, u: UnitView) -> Result<
    Seq<ReadView>,
    FootprintError,
> {
    let ms = e.c.members;
    match u {
        UnitView::MemberChecksum { member, start, stop } => Ok(
            seq![ReadView { member, off: start, len: span(start, stop) }],
        ),
        UnitView::PartDigest { member, start, stop } => Ok(
            seq![ReadView { member, off: start, len: span(start, stop) }],
        ),
        UnitView::ManifestChain => Ok(manifest_reads(ms, ms.len())),
        UnitView::PartSection { member, section } => {
            let all = sections_at(ms, lay, member);
            if container::position_of(ms, member) is None {
                Err(FootprintError::NoMember)
            } else if section < all.len() {
                Ok(
                    seq![
                        ReadView {
                            member,
                            off: all[section as int].off,
                            len: all[section as int].stored,
                        },
                    ],
                )
            } else {
                Err(FootprintError::NoSection)
            }
        },
        UnitView::PartGrammar { member } => match container::position_of(ms, member) {
            None => Err(FootprintError::NoMember),
            Some(i) => Ok(seq![ReadView { member, off: 0, len: ms[i].bytes.len() as u64 }]),
        },
        UnitView::FoldFrames { seg, start, stop } => Ok(
            seq![
                ReadView {
                    member: text::chars(names::segment_name(e.current.manifest.fold_gen, seg)),
                    off: start,
                    len: span(start, stop),
                },
            ],
        ),
        UnitView::PartPieces { member, authority } => match (
            source::part_at(ms, member),
            source::authority_view(e, authority),
        ) {
            (Some(p), Some(s)) => part_reads(
                s,
                member,
                sections_at(ms, lay, member),
                false,
                dictionary_locs(p.pieces),
            ),
            _ => Err(FootprintError::NoPart),
        },
        UnitView::Content { authority, part, start, stop } => match source::authority_view(
            e,
            authority,
        ) {
            None => Err(FootprintError::NoPart),
            Some(s) => if part >= s.parts.len() || part >= s.manifest.parts.len() {
                Err(FootprintError::NoPart)
            } else {
                let p = s.parts[part as int];
                let member = s.manifest.parts[part as int].member;
                let rows = source::window_rows(s, part as int, start, stop);
                if !rows_resolve(p, rows, rows.len()) {
                    Err(FootprintError::NoPiece)
                } else {
                    part_reads(
                        s,
                        member,
                        sections_at(ms, lay, member),
                        true,
                        window_locs(p, rows, rows.len()),
                    )
                }
            },
        },
    }
}

// ---------------------------------------------------------------------------------------------
// Finding it out.
// ---------------------------------------------------------------------------------------------
fn push_read(out: &mut Vec<MemberRead>, member: String, off: u64, len: u64)
    ensures
        reads_view(final(out)@) == reads_view(old(out)@).push(
            ReadView { member: member@, off, len },
        ),
{
    let ghost before = out@;
    let ghost v = ReadView { member: member@, off, len };
    out.push(MemberRead { member, off, len });
    assert(reads_view(out@) =~= reads_view(before).push(v));
}

fn one_read(member: String, off: u64, len: u64) -> (r: Vec<MemberRead>)
    ensures
        reads_view(r@) == seq![ReadView { member: member@, off, len }],
{
    let ghost v = ReadView { member: member@, off, len };
    let mut out: Vec<MemberRead> = Vec::new();
    assert(reads_view(out@) =~= Seq::<ReadView>::empty());
    push_read(&mut out, member, off, len);
    assert(reads_view(out@) =~= seq![v]);
    out
}

fn span_of(start: u64, stop: u64) -> (r: u64)
    ensures
        r == span(start, stop),
{
    if start < stop {
        stop - start
    } else {
        0
    }
}

fn start_of_frame(f: &Fold, seg: u32, n: usize) -> (r: u64)
    requires
        n <= f@.blocks.len(),
    ensures
        r == frame_start(f@.blocks, seg, n as nat),
{
    let ghost blocks = f@.blocks;
    let mut i: usize = n;
    while i > 0
        invariant
            blocks == f@.blocks,
            i <= n <= blocks.len(),
            frame_start(blocks, seg, n as nat) == frame_start(blocks, seg, i as nat),
        decreases i,
    {
        assert(blocks[i - 1] == f.blocks@[i - 1]@);
        if f.blocks[i - 1].segment == seg {
            return f.blocks[i - 1].end;
        }
        i = i - 1;
    }
    SEG_HDR_LEN
}

fn holds_id(ids: &Vec<u32>, id: u32) -> (r: bool)
    ensures
        r == ids@.contains(id),
{
    let mut i: usize = 0;
    while i < ids.len()
        invariant
            i <= ids@.len(),
            forall|k: int| 0 <= k < i ==> ids@[k] != id,
        decreases ids.len() - i,
    {
        if ids[i] == id {
            assert(ids@[i as int] == id);
            return true;
        }
        i = i + 1;
    }
    false
}

fn needed_blocks(f: &Fold, locs: &Vec<Loc>) -> (r: Vec<u32>)
    ensures
        r@ == needed(f@, locs@, locs@.len()),
{
    let mut out: Vec<u32> = Vec::new();
    let mut i: usize = 0;
    while i < locs.len()
        invariant
            i <= locs@.len(),
            out@ == needed(f@, locs@, i as nat),
        decreases locs.len() - i,
    {
        let id: u32 = locs[i].block_id;
        if !f.is_punched(id) && !holds_id(&out, id) {
            out.push(id);
        }
        i = i + 1;
    }
    out
}

proof fn lemma_block_fault_prefix(f: FoldView, ids: Seq<u32>, k: nat, n: nat)
    requires
        k <= n,
        block_fault(f, ids, k) is Some,
    ensures
        block_fault(f, ids, n) == block_fault(f, ids, k),
    decreases n,
{
    if k < n {
        lemma_block_fault_prefix(f, ids, k, (n - 1) as nat);
    }
}

fn wanted(name: &str, content: bool) -> (r: bool)
    ensures
        r == (dictionary_section(name@) || (content && content_section(name@))),
{
    if bytes::strip_prefix(name.as_bytes(), "pdict.".as_bytes()).is_some() {
        return true;
    }
    content && (bytes::str_eq(name, "cmeta") || bytes::strip_prefix(
        name.as_bytes(),
        "con.".as_bytes(),
    ).is_some())
}

fn read_sections(member: &str, sections: &Vec<SectionRange>, content: bool) -> (r: Vec<MemberRead>)
    ensures
        reads_view(r@) == section_reads(
            member@,
            sections_view(sections@),
            content,
            sections@.len(),
        ),
{
    let ghost all = sections_view(sections@);
    let mut out: Vec<MemberRead> = Vec::new();
    let mut i: usize = 0;
    assert(reads_view(out@) =~= Seq::<ReadView>::empty());
    while i < sections.len()
        invariant
            all == sections_view(sections@),
            i <= sections@.len(),
            reads_view(out@) == section_reads(member@, all, content, i as nat),
        decreases sections.len() - i,
    {
        assert(all[i as int] == sections@[i as int]@);
        if wanted(sections[i].name.as_str(), content) {
            push_read(&mut out, member.to_owned(), sections[i].off, sections[i].stored);
        }
        i = i + 1;
    }
    out
}

fn read_part(
    s: &ReadStore,
    member: &str,
    sections: &Vec<SectionRange>,
    content: bool,
    locs: &Vec<Loc>,
) -> (r: Result<Vec<MemberRead>, FootprintError>)
    ensures
        part_reads(s@, member@, sections_view(sections@), content, locs@) == (match r {
            Ok(reads) => Ok::<Seq<ReadView>, FootprintError>(reads_view(reads@)),
            Err(e) => Err(e),
        }),
{
    let ghost v = s@;
    let ids = needed_blocks(&s.fold, locs);
    let mut out = read_sections(member, sections, content);
    let ghost first = reads_view(out@);
    let ghost all = frame_reads(v, ids@);
    let mut i: usize = 0;
    assert(reads_view(out@) =~= first + all.take(0));
    while i < ids.len()
        invariant
            v == s@,
            ids@ == needed(v.fold, locs@, locs@.len()),
            first == section_reads(
                member@,
                sections_view(sections@),
                content,
                sections@.len(),
            ),
            all == frame_reads(v, ids@),
            i <= ids@.len(),
            block_fault(v.fold, ids@, i as nat) is None,
            reads_view(out@) == first + all.take(i as int),
        decreases ids.len() - i,
    {
        let id: u32 = ids[i];
        if id as u64 >= s.fold.blocks.len() as u64 {
            proof {
                lemma_block_fault_prefix(v.fold, ids@, (i + 1) as nat, ids@.len());
            }
            return Err(FootprintError::NoBlock { block_id: id });
        }
        assert(v.fold.blocks[id as int] == s.fold.blocks@[id as int]@);
        let seg: u32 = s.fold.blocks[id as usize].segment;
        let start: u64 = start_of_frame(&s.fold, seg, id as usize);
        let len: u64 = span_of(start, s.fold.blocks[id as usize].end);
        push_read(&mut out, names::segment_member(s.manifest.fold_gen, seg), start, len);
        proof {
            assert(all[i as int] == frame_read(v, id));
            assert(first + all.take(i + 1) =~= (first + all.take(i as int)).push(all[i as int]));
        }
        i = i + 1;
    }
    assert(all.take(ids@.len() as int) =~= all);
    Ok(out)
}

fn read_manifests(c: &Container) -> (r: Vec<MemberRead>)
    ensures
        reads_view(r@) == manifest_reads(c@.members, c@.members.len()),
{
    let ghost ms = c@.members;
    let mut out: Vec<MemberRead> = Vec::new();
    let mut i: usize = 0;
    assert(reads_view(out@) =~= Seq::<ReadView>::empty());
    while i < c.members.len()
        invariant
            ms == c@.members,
            i <= c.members@.len(),
            reads_view(out@) == manifest_reads(ms, i as nat),
        decreases c.members.len() - i,
    {
        let m = &c.members[i];
        assert(ms[i as int] == m@);
        if bytes::str_eq(m.name.as_str(), "MANIFEST") || bytes::strip_prefix(
            m.name.as_str().as_bytes(),
            "MANIFEST.".as_bytes(),
        ).is_some() {
            push_read(&mut out, m.name.as_str().to_owned(), 0, m.bytes.len() as u64);
        }
        i = i + 1;
    }
    out
}

fn gather_program(p: &Part, ops: &Vec<ContentOp>, acc: &mut Vec<Loc>) -> (r: bool)
    ensures
        ({
            let all = types::ops_view(ops@);
            &&& r == program_resolves(p@.pieces, all, all.len())
            &&& r ==> final(acc)@ == liveness::program_locs(
                p@.pieces,
                all,
                all.len(),
                old(acc)@,
            )
        }),
{
    let ghost all = types::ops_view(ops@);
    let ghost dict = p@.pieces;
    let mut i: usize = 0;
    while i < ops.len()
        invariant
            all == types::ops_view(ops@),
            dict == p@.pieces,
            i <= ops@.len(),
            program_resolves(dict, all, i as nat),
            acc@ == liveness::program_locs(dict, all, i as nat, old(acc)@),
        decreases ops.len() - i,
    {
        assert(all[i as int] == ops@[i as int]@);
        if let ContentOp::Piece { hash, len: _ } = &ops[i] {
            match p.find_piece(hash) {
                None => {
                    return false;
                },
                Some(loc) => {
                    if !liveness::has_loc(acc, loc) {
                        acc.push(loc);
                    }
                },
            }
        }
        i = i + 1;
    }
    true
}

fn gather_contents(p: &Part, contents: &Vec<Content>, acc: &mut Vec<Loc>) -> (r: bool)
    ensures
        ({
            let all = types::contents_view(contents@);
            &&& r == contents_resolve(p@.pieces, all, all.len())
            &&& r ==> final(acc)@ == liveness::contents_locs(
                p@.pieces,
                all,
                all.len(),
                old(acc)@,
            )
        }),
{
    let ghost all = types::contents_view(contents@);
    let mut i: usize = 0;
    while i < contents.len()
        invariant
            all == types::contents_view(contents@),
            i <= contents@.len(),
            contents_resolve(p@.pieces, all, i as nat),
            acc@ == liveness::contents_locs(p@.pieces, all, i as nat, old(acc)@),
        decreases contents.len() - i,
    {
        assert(all[i as int] == contents@[i as int]@);
        if !gather_program(p, &contents[i].ops, acc) {
            assert(!program_resolves(p@.pieces, all[i as int].ops, all[i as int].ops.len()));
            return false;
        }
        i = i + 1;
    }
    true
}

fn gather_rows(p: &Part, rows: &Vec<usize>, from: usize, to: usize) -> (r: Option<Vec<Loc>>)
    requires
        from <= to <= rows@.len(),
        forall|k: int| 0 <= k < rows@.len() ==> #[trigger] rows@[k] < p@.rows.len(),
    ensures
        ({
            let window = rows@.subrange(from as int, to as int);
            match r {
                Some(locs) => rows_resolve(p@, window, window.len()) && locs@ == window_locs(
                    p@,
                    window,
                    window.len(),
                ),
                None => !rows_resolve(p@, window, window.len()),
            }
        }),
{
    let ghost window = rows@.subrange(from as int, to as int);
    let ghost v = p@;
    let mut acc: Vec<Loc> = Vec::new();
    let mut i: usize = from;
    while i < to
        invariant
            v == p@,
            from <= i <= to <= rows@.len(),
            window == rows@.subrange(from as int, to as int),
            forall|k: int| 0 <= k < rows@.len() ==> #[trigger] rows@[k] < v.rows.len(),
            rows_resolve(v, window, (i - from) as nat),
            acc@ == window_locs(v, window, (i - from) as nat),
        decreases to - i,
    {
        let row: usize = rows[i];
        assert(window[i - from] == row);
        assert(v.rows[row as int] == p.rows@[row as int]@);
        if let Some(record) = &p.rows[row].record {
            assert(row_contents(v, row) == types::contents_view(record.contents@));
            if !gather_contents(p, &record.contents, &mut acc) {
                return None;
            }
        }
        i = i + 1;
    }
    Some(acc)
}

fn gather_dictionary(p: &Part) -> (r: Vec<Loc>)
    ensures
        r@ == dictionary_locs(p@.pieces),
{
    let mut out: Vec<Loc> = Vec::new();
    let mut i: usize = 0;
    while i < p.pieces.len()
        invariant
            i <= p.pieces@.len(),
            out@.len() == i,
            forall|k: int| 0 <= k < i ==> #[trigger] out@[k] == p@.pieces[k].1,
        decreases p.pieces.len() - i,
    {
        assert(p@.pieces[i as int].1 == p.pieces@[i as int].1);
        out.push(p.pieces[i].1);
        i = i + 1;
    }
    assert(out@ =~= dictionary_locs(p@.pieces));
    out
}

impl SourceVerifier {
    fn read_pieces(&self, layout: &Vec<MemberLayout>, member: &str, authority: Authority) -> (r: Result<
        Vec<MemberRead>,
        FootprintError,
    >)
        requires
            self.wf(),
            layout@.len() == self.container@.members.len(),
        ensures
            unit_reads(
                self.env(),
                layouts_view(layout@),
                UnitView::PartPieces { member: member@, authority },
            ) == (match r {
                Ok(reads) => Ok::<Seq<ReadView>, FootprintError>(reads_view(reads@)),
                Err(e) => Err(e),
            }),
    {
        let ghost ms = self.container@.members;
        proof {
            container::lemma_position_from(ms, member@, 0);
        }
        let at: usize = match self.container.find(member) {
            Some(at) => at,
            None => {
                return Err(FootprintError::NoPart);
            },
        };
        assert(ms[at as int] == self.container.members@[at as int]@);
        assert(layouts_view(layout@)[at as int] == layout@[at as int]@);
        let p = match &self.container.members[at].part {
            Some(p) => p,
            None => {
                return Err(FootprintError::NoPart);
            },
        };
        let s = match self.authority(authority) {
            Some(s) => s,
            None => {
                return Err(FootprintError::NoPart);
            },
        };
        let locs = gather_dictionary(p);
        read_part(s, member, &layout[at].sections, false, &locs)
    }

    fn read_content(
        &self,
        layout: &Vec<MemberLayout>,
        authority: Authority,
        index: usize,
        start: usize,
        stop: usize,
    ) -> (r: Result<Vec<MemberRead>, FootprintError>)
        requires
            self.wf(),
            layout@.len() == self.container@.members.len(),
        ensures
            unit_reads(
                self.env(),
                layouts_view(layout@),
                UnitView::Content { authority, part: index, start, stop },
            ) == (match r {
                Ok(reads) => Ok::<Seq<ReadView>, FootprintError>(reads_view(reads@)),
                Err(e) => Err(e),
            }),
    {
        let ghost ms = self.container@.members;
        let s = match self.authority(authority) {
            Some(s) => s,
            None => {
                return Err(FootprintError::NoPart);
            },
        };
        if index >= s.parts.len() || index >= s.manifest.parts.len() {
            return Err(FootprintError::NoPart);
        }
        let ghost v = s@;
        assert(v.parts[index as int] == s.parts@[index as int]@);
        assert(v.manifest.parts[index as int] == s.manifest.parts@[index as int]@);
        let rows = source_plan::live_rows_of(s, index);
        let (from, to) = if start <= stop && stop <= rows.len() {
            (start, stop)
        } else {
            (0, 0)
        };
        assert(rows@.subrange(from as int, to as int) =~= source::window_rows(
            v,
            index as int,
            start,
            stop,
        ));
        let locs = match gather_rows(&s.parts[index], &rows, from, to) {
            Some(locs) => locs,
            None => {
                return Err(FootprintError::NoPiece);
            },
        };
        let member = s.manifest.parts[index].member.as_str();
        proof {
            container::lemma_position_from(ms, member@, 0);
        }
        match self.container.find(member) {
            Some(at) => {
                assert(layouts_view(layout@)[at as int] == layout@[at as int]@);
                read_part(s, member, &layout[at].sections, true, &locs)
            },
            None => {
                let none: Vec<SectionRange> = Vec::new();
                assert(sections_view(none@) =~= Seq::<SectionView>::empty());
                read_part(s, member, &none, true, &locs)
            },
        }
    }

    fn reads(&self, layout: &Vec<MemberLayout>, index: usize) -> (r: Result<
        Vec<MemberRead>,
        FootprintError,
    >)
        requires
            self.wf(),
            index < self.units@.len(),
            layout@.len() == self.container@.members.len(),
        ensures
            unit_reads(self.env(), layouts_view(layout@), self.units@[index as int]@) == (match r {
                Ok(reads) => Ok::<Seq<ReadView>, FootprintError>(reads_view(reads@)),
                Err(e) => Err(e),
            }),
    {
        let ghost ms = self.container@.members;
        match &self.units[index] {
            VerifyUnit::MemberChecksum { member, start, stop } => Ok(
                one_read(member.as_str().to_owned(), *start, span_of(*start, *stop)),
            ),
            VerifyUnit::PartDigest { member, start, stop } => Ok(
                one_read(member.as_str().to_owned(), *start, span_of(*start, *stop)),
            ),
            VerifyUnit::ManifestChain => Ok(read_manifests(&self.container)),
            VerifyUnit::PartSection { member, section } => {
                proof {
                    container::lemma_position_from(ms, member@, 0);
                }
                match self.container.find(member.as_str()) {
                    None => Err(FootprintError::NoMember),
                    Some(at) => {
                        let all = &layout[at].sections;
                        assert(layouts_view(layout@)[at as int] == layout@[at as int]@);
                        if *section < all.len() {
                            assert(sections_view(all@)[*section as int] == all@[*section as int]@);
                            Ok(
                                one_read(
                                    member.as_str().to_owned(),
                                    all[*section].off,
                                    all[*section].stored,
                                ),
                            )
                        } else {
                            Err(FootprintError::NoSection)
                        }
                    },
                }
            },
            VerifyUnit::PartGrammar { member } => {
                proof {
                    container::lemma_position_from(ms, member@, 0);
                }
                match self.container.find(member.as_str()) {
                    None => Err(FootprintError::NoMember),
                    Some(at) => {
                        assert(ms[at as int] == self.container.members@[at as int]@);
                        let len: u64 = self.container.members[at].bytes.len() as u64;
                        Ok(one_read(member.as_str().to_owned(), 0, len))
                    },
                }
            },
            VerifyUnit::FoldFrames { seg, start, stop } => Ok(
                one_read(
                    names::segment_member(self.current.manifest.fold_gen, *seg),
                    *start,
                    span_of(*start, *stop),
                ),
            ),
            VerifyUnit::PartPieces { member, authority } => self.read_pieces(
                layout,
                member.as_str(),
                *authority,
            ),
            VerifyUnit::Content { authority, part, start, stop } => self.read_content(
                layout,
                *authority,
                *part,
                *start,
                *stop,
            ),
        }
    }

    /// The ranges of the file that a unit reads, as offset and length, in order and apart. What
    /// opening already read is left out, but for the manifests.
    pub fn footprint(&self, layout: &Vec<MemberLayout>, index: usize) -> (r: Result<
        Vec<(u64, u64)>,
        FootprintError,
    >)
        requires
            self.wf(),
            layout@.len() == self.container@.members.len(),
            layout_ok(layouts_view(layout@)),
        ensures
            ({
                let e = self.env();
                let lay = layouts_view(layout@);
                if index >= self.units@.len() {
                    r == Err::<Vec<(u64, u64)>, FootprintError>(FootprintError::NoUnit)
                } else {
                    match unit_reads(e, lay, self.units@[index as int]@) {
                        Err(error) => r == Err::<Vec<(u64, u64)>, FootprintError>(error),
                        Ok(reads) => match r {
                            Err(error) => error == FootprintError::NoMember && !members_held(
                                e.c.members,
                                reads,
                                reads.len(),
                            ),
                            Ok(ranges) => {
                                &&& members_held(e.c.members, reads, reads.len())
                                &&& verify::apart(ranges@)
                                &&& forall|x: int| #[trigger]
                                    verify::covers(ranges@, x) <==> touched(
                                        e.c.members,
                                        lay,
                                        reads,
                                        reads.len(),
                                        x,
                                    )
                            },
                        },
                    }
                }
            }),
    {
        if index >= self.units.len() {
            return Err(FootprintError::NoUnit);
        }
        let reads = match self.reads(layout, index) {
            Ok(reads) => reads,
            Err(error) => {
                return Err(error);
            },
        };
        place(&self.container, layout, &reads)
    }
}

} // verus!
