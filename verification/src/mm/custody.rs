//! Who holds a guest address range, as the address-range domain records it.
use crate::ids::{FamilyId, HoleGenerationId, VmViewId};
use crate::range_table::Coded;
use core::ops::Range;
use vstd::prelude::*;

verus! {

/// The kind of guest-virtual-address span a view currently claims.
#[derive(Clone, Copy, Debug, PartialEq, Eq, Structural)]
pub enum SpanKind {
    /// Backed by real memory.
    Present,
    /// Logical-only custody for a deferred reservation. Never installed, and never checked
    /// against any other view's spans.
    Reserved,
}

/// Origin of one permanently-blocked custody span.
#[derive(Clone, Copy, Debug, PartialEq, Eq, Structural)]
pub enum BlockOrigin {
    /// Declared when the domain was made.
    ConstructionStatic,
    /// A platform trampoline/stub region.
    Trampoline,
    /// A hard floor imposed by the hypervisor's address layout.
    HvfFloorLimit,
    /// The host refused the range for a reason attributable to another, uncontrolled owner.
    ForeignHost,
}

/// Custody state of one guest-virtual-address range.
#[derive(Debug, PartialEq, Eq)]
pub enum Custody {
    /// No view has ever claimed this range.
    Unclaimed,
    /// Domain-owned, unmapped: reserved from the host but not backing any view.
    Hole { generation: HoleGenerationId },
    /// Backing a live, installed span of `view`.
    Present { generation: HoleGenerationId, view: VmViewId },
    /// Permanently excluded; no view may ever claim this range.
    DomainBlocked(BlockOrigin),
    /// A claim or install is in flight for this range.
    Installing { generation: HoleGenerationId },
    /// A retirement is in flight for this range.
    Retiring { generation: HoleGenerationId, view: VmViewId },
    /// Logical-only custody claimed by one or more views.
    Reserved { views: Vec<VmViewId> },
}

/// The mathematical value of a [`Custody`].
pub enum CustodyModel {
    Unclaimed,
    Hole { generation: HoleGenerationId },
    Present { generation: HoleGenerationId, view: VmViewId },
    DomainBlocked(BlockOrigin),
    Installing { generation: HoleGenerationId },
    Retiring { generation: HoleGenerationId, view: VmViewId },
    Reserved { views: Seq<VmViewId> },
}

impl View for Custody {
    type V = CustodyModel;

    open spec fn view(&self) -> CustodyModel {
        match self {
            Custody::Unclaimed => CustodyModel::Unclaimed,
            Custody::Hole { generation } => CustodyModel::Hole { generation: *generation },
            Custody::Present { generation, view } => CustodyModel::Present {
                generation: *generation,
                view: *view,
            },
            Custody::DomainBlocked(origin) => CustodyModel::DomainBlocked(*origin),
            Custody::Installing { generation } => CustodyModel::Installing { generation: *generation },
            Custody::Retiring { generation, view } => CustodyModel::Retiring {
                generation: *generation,
                view: *view,
            },
            Custody::Reserved { views } => CustodyModel::Reserved { views: views@ },
        }
    }
}

/// Copies a list of views.
pub fn copy_views(views: &Vec<VmViewId>) -> (copy: Vec<VmViewId>)
    ensures
        copy@ == views@,
{
    let mut copy: Vec<VmViewId> = Vec::new();
    let mut i: usize = 0;
    while i < views.len()
        invariant
            i <= views@.len(),
            copy@ =~= views@.take(i as int),
        decreases views@.len() - i,
    {
        copy.push(views[i]);
        i += 1;
    }
    copy
}

impl Clone for Custody {
    fn clone(&self) -> (copy: Self)
        ensures
            copy@ == self@,
    {
        match self {
            Custody::Unclaimed => Custody::Unclaimed,
            Custody::Hole { generation } => Custody::Hole { generation: *generation },
            Custody::Present { generation, view } => Custody::Present {
                generation: *generation,
                view: *view,
            },
            Custody::DomainBlocked(origin) => Custody::DomainBlocked(*origin),
            Custody::Installing { generation } => Custody::Installing { generation: *generation },
            Custody::Retiring { generation, view } => Custody::Retiring {
                generation: *generation,
                view: *view,
            },
            Custody::Reserved { views } => Custody::Reserved { views: copy_views(views) },
        }
    }
}

impl Custody {
    /// Whether nobody holds the range.
    pub fn is_unclaimed(&self) -> (yes: bool)
        ensures
            yes == (self@ == CustodyModel::Unclaimed),
    {
        matches!(self, Custody::Unclaimed)
    }
}

impl Coded for SpanKind {
    type Model = SpanKind;

    open spec fn model(&self) -> SpanKind {
        *self
    }

    open spec fn code(model: SpanKind) -> Seq<u64> {
        seq![if model == SpanKind::Present { 0u64 } else { 1u64 }]
    }

    open spec fn decoded(words: Seq<u64>) -> SpanKind {
        if words[0] == 0 {
            SpanKind::Present
        } else {
            SpanKind::Reserved
        }
    }

    proof fn lemma_round_trip(model: SpanKind) {
    }

    fn encode(&self) -> (words: Vec<u64>) {
        let words = vec![if matches!(self, SpanKind::Present) { 0u64 } else { 1u64 }];
        proof {
            assert(words@ =~= Self::code(self.model()));
        }
        words
    }

    fn decode(words: &Vec<u64>) -> (value: Self) {
        if words[0] == 0 {
            SpanKind::Present
        } else {
            SpanKind::Reserved
        }
    }
}

impl Coded for VmViewId {
    type Model = VmViewId;

    open spec fn model(&self) -> VmViewId {
        *self
    }

    open spec fn code(model: VmViewId) -> Seq<u64> {
        seq![model.raw]
    }

    open spec fn decoded(words: Seq<u64>) -> VmViewId {
        VmViewId { raw: words[0] }
    }

    proof fn lemma_round_trip(model: VmViewId) {
    }

    fn encode(&self) -> (words: Vec<u64>) {
        let words = vec![self.raw];
        proof {
            assert(words@ =~= Self::code(self.model()));
        }
        words
    }

    fn decode(words: &Vec<u64>) -> (value: Self) {
        VmViewId { raw: words[0] }
    }
}

impl Coded for BlockOrigin {
    type Model = BlockOrigin;

    open spec fn model(&self) -> BlockOrigin {
        *self
    }

    open spec fn code(model: BlockOrigin) -> Seq<u64> {
        seq![
            match model {
                BlockOrigin::ConstructionStatic => 0u64,
                BlockOrigin::Trampoline => 1u64,
                BlockOrigin::HvfFloorLimit => 2u64,
                BlockOrigin::ForeignHost => 3u64,
            },
        ]
    }

    open spec fn decoded(words: Seq<u64>) -> BlockOrigin {
        origin_of(words[0])
    }

    proof fn lemma_round_trip(model: BlockOrigin) {
    }

    fn encode(&self) -> (words: Vec<u64>) {
        let words = vec![origin_word(*self)];
        proof {
            assert(words@ =~= Self::code(self.model()));
        }
        words
    }

    fn decode(words: &Vec<u64>) -> (value: Self) {
        read_origin(words[0])
    }
}

/// The origin behind a word.
pub open spec fn origin_of(word: u64) -> BlockOrigin {
    if word == 0 {
        BlockOrigin::ConstructionStatic
    } else if word == 1 {
        BlockOrigin::Trampoline
    } else if word == 2 {
        BlockOrigin::HvfFloorLimit
    } else {
        BlockOrigin::ForeignHost
    }
}

fn origin_word(origin: BlockOrigin) -> (word: u64)
    ensures
        word == BlockOrigin::code(origin)[0],
{
    match origin {
        BlockOrigin::ConstructionStatic => 0,
        BlockOrigin::Trampoline => 1,
        BlockOrigin::HvfFloorLimit => 2,
        BlockOrigin::ForeignHost => 3,
    }
}

fn read_origin(word: u64) -> (origin: BlockOrigin)
    ensures
        origin == origin_of(word),
{
    if word == 0 {
        BlockOrigin::ConstructionStatic
    } else if word == 1 {
        BlockOrigin::Trampoline
    } else if word == 2 {
        BlockOrigin::HvfFloorLimit
    } else {
        BlockOrigin::ForeignHost
    }
}

impl Coded for Custody {
    type Model = CustodyModel;

    open spec fn model(&self) -> CustodyModel {
        self@
    }

    open spec fn code(model: CustodyModel) -> Seq<u64> {
        match model {
            CustodyModel::Unclaimed => seq![0u64],
            CustodyModel::Hole { generation } => seq![1u64, generation.raw],
            CustodyModel::Present { generation, view } => seq![2u64, generation.raw, view.raw],
            CustodyModel::DomainBlocked(origin) => seq![3u64, BlockOrigin::code(origin)[0]],
            CustodyModel::Installing { generation } => seq![4u64, generation.raw],
            CustodyModel::Retiring { generation, view } => seq![5u64, generation.raw, view.raw],
            CustodyModel::Reserved { views } => seq![6u64] + Seq::new(views.len(), |i: int| views[i].raw),
        }
    }

    open spec fn decoded(words: Seq<u64>) -> CustodyModel {
        if words[0] == 0 {
            CustodyModel::Unclaimed
        } else if words[0] == 1 {
            CustodyModel::Hole { generation: HoleGenerationId { raw: words[1] } }
        } else if words[0] == 2 {
            CustodyModel::Present {
                generation: HoleGenerationId { raw: words[1] },
                view: VmViewId { raw: words[2] },
            }
        } else if words[0] == 3 {
            CustodyModel::DomainBlocked(origin_of(words[1]))
        } else if words[0] == 4 {
            CustodyModel::Installing { generation: HoleGenerationId { raw: words[1] } }
        } else if words[0] == 5 {
            CustodyModel::Retiring {
                generation: HoleGenerationId { raw: words[1] },
                view: VmViewId { raw: words[2] },
            }
        } else {
            CustodyModel::Reserved {
                views: Seq::new((words.len() - 1) as nat, |i: int| VmViewId { raw: words[i + 1] }),
            }
        }
    }

    proof fn lemma_round_trip(model: CustodyModel) {
        if let CustodyModel::Reserved { views } = model {
            let words = Self::code(model);
            assert(words[0] == 6);
            let back = Seq::new((words.len() - 1) as nat, |i: int| VmViewId { raw: words[i + 1] });
            assert(back =~= views);
        }
    }

    fn encode(&self) -> (words: Vec<u64>) {
        let mut words: Vec<u64> = Vec::new();
        match self {
            Custody::Unclaimed => {
                words.push(0);
            },
            Custody::Hole { generation } => {
                words.push(1);
                words.push(generation.raw);
            },
            Custody::Present { generation, view } => {
                words.push(2);
                words.push(generation.raw);
                words.push(view.raw);
            },
            Custody::DomainBlocked(origin) => {
                words.push(3);
                words.push(origin_word(*origin));
            },
            Custody::Installing { generation } => {
                words.push(4);
                words.push(generation.raw);
            },
            Custody::Retiring { generation, view } => {
                words.push(5);
                words.push(generation.raw);
                words.push(view.raw);
            },
            Custody::Reserved { views } => {
                words.push(6);
                let mut i: usize = 0;
                while i < views.len()
                    invariant
                        i <= views@.len(),
                        words@ =~= seq![6u64] + Seq::new(i as nat, |j: int| views@[j].raw),
                    decreases views@.len() - i,
                {
                    words.push(views[i].raw);
                    i += 1;
                }
            },
        }
        proof {
            assert(words@ =~= Self::code(self.model()));
        }
        words
    }

    fn decode(words: &Vec<u64>) -> (value: Self) {
        proof {
            // Words of a value are never empty.
            assert(words@.len() > 0);
        }
        let tag: u64 = words[0];
        if tag == 0 {
            Custody::Unclaimed
        } else if tag == 1 {
            Custody::Hole { generation: HoleGenerationId { raw: words[1] } }
        } else if tag == 2 {
            Custody::Present {
                generation: HoleGenerationId { raw: words[1] },
                view: VmViewId { raw: words[2] },
            }
        } else if tag == 3 {
            Custody::DomainBlocked(read_origin(words[1]))
        } else if tag == 4 {
            Custody::Installing { generation: HoleGenerationId { raw: words[1] } }
        } else if tag == 5 {
            Custody::Retiring {
                generation: HoleGenerationId { raw: words[1] },
                view: VmViewId { raw: words[2] },
            }
        } else {
            let mut views: Vec<VmViewId> = Vec::new();
            let mut i: usize = 1;
            while i < words.len()
                invariant
                    1 <= i <= words@.len(),
                    views@ =~= Seq::new((i - 1) as nat, |j: int| VmViewId { raw: words@[j + 1] }),
                decreases words@.len() - i,
            {
                views.push(VmViewId { raw: words[i] });
                i += 1;
            }
            Custody::Reserved { views }
        }
    }
}

/// A generation-authenticated capability over a domain-owned hole: made by a claim or a
/// retirement, consumed by an install or a release.
#[derive(Debug, PartialEq, Eq, Structural)]
pub struct HoleToken {
    start: usize,
    end: usize,
    generation: HoleGenerationId,
    family: FamilyId,
}

/// What a token says.
pub struct TokenModel {
    pub start: int,
    pub end: int,
    /// The generation under which the hole is held.
    pub generation: HoleGenerationId,
    /// The family in whose tables the hole lives.
    pub family: FamilyId,
}

impl View for HoleToken {
    type V = TokenModel;

    closed spec fn view(&self) -> TokenModel {
        TokenModel {
            start: self.start as int,
            end: self.end as int,
            generation: self.generation,
            family: self.family,
        }
    }
}

impl HoleToken {
    /// The range is not empty.
    pub open spec fn wf(&self) -> bool {
        0 <= self@.start < self@.end <= usize::MAX
    }

    pub(crate) fn mint(start: usize, end: usize, generation: HoleGenerationId, family: FamilyId) -> (token: Self)
        ensures
            token@ == (TokenModel { start: start as int, end: end as int, generation, family }),
    {
        HoleToken { start, end, generation, family }
    }

    pub(crate) fn parts(&self) -> (parts: (usize, usize, HoleGenerationId, FamilyId))
        ensures
            self@ == (TokenModel {
                start: parts.0 as int,
                end: parts.1 as int,
                generation: parts.2,
                family: parts.3,
            }),
    {
        (self.start, self.end, self.generation, self.family)
    }

    /// The guest-virtual-address range this token authenticates custody over.
    pub fn range(&self) -> (range: Range<usize>)
        ensures
            range.start == self@.start,
            range.end == self@.end,
    {
        self.start..self.end
    }
}

impl Clone for HoleToken {
    fn clone(&self) -> (copy: Self)
        ensures
            copy == *self,
    {
        HoleToken {
            start: self.start,
            end: self.end,
            generation: self.generation,
            family: self.family,
        }
    }
}

} // verus!
