//! Building the preference lists.
//!
//! An applicant applies to the programs that fall into its reach, realistic
//! and safety bands; every program it applies to lists it, the more
//! competitive applicants first. A couple sends out one joint list.

use vstd::prelude::*;
use crate::models::{Applicant, ApplicantView, Couple, Program, ProgramView, programs_view};
use crate::order::{Weighted, by_weight, sort_by_weight};
use crate::placement::{find_program, program_ids};

verus! {

/// Something that has a competitiveness score. Scores are ordered: the
/// greater score is the more competitive.
pub trait Competitive {
    /// The score.
    spec fn score_view(&self) -> u32;

    /// The identifier under which the other side lists this one.
    spec fn listed_as(&self) -> u32;

    fn competitiveness(&self) -> (score: u32)
        ensures
            score == self.score_view(),
    ;
}

/// Something that lists those that apply to it.
pub trait ReceiveApplication<A: Competitive> {
    /// The applications received so far, each as the applicant's identifier
    /// and score, the most competitive first.
    spec fn received(&self) -> Seq<(u32, u32)>;

    /// The entry that stands for `applicant`.
    spec fn entry_of(applicant: &A) -> (u32, u32);

    /// Lists `applicant` and puts the list back in order of score, greatest
    /// first; entries of equal score keep the order in which they came.
    fn receive_application(&mut self, applicant: &A)
        ensures
            final(self).received() == by_weight(old(self).received().push(Self::entry_of(applicant))),
    ;
}

/// Something that ranks the other side of the market.
pub trait Rankable<T: Competitive>: Competitive + Sized {
    /// The identifier.
    spec fn id_view(&self) -> u32;

    /// The identifiers on the preference list, most preferred first.
    spec fn ranking_view(&self) -> Seq<u32>;

    fn id(&self) -> (id: u32)
        ensures
            id == self.id_view(),
    ;

    fn ranking(&self) -> (list: Vec<u32>)
        ensures
            list@ == self.ranking_view(),
    ;

    /// Puts `to_add` at the end of the preference list.
    fn add_ranking(&mut self, to_add: &T)
        ensures
            final(self).ranking_view() == old(self).ranking_view().push(to_add.listed_as()),
            final(self).id_view() == old(self).id_view(),
            final(self).score_view() == old(self).score_view(),
    ;

    /// Ranks the `num` nearest of `to_rank`. Each candidate comes with its
    /// distance; the candidates are put in order of distance, nearest first
    /// and equally near ones in the order given, and the first `num` of
    /// them join the preference list in that order.
    fn naive_rank(&mut self, to_rank: &mut Vec<(u32, &T)>, num: u8)
        ensures
            final(to_rank)@ == by_weight(old(to_rank)@),
            final(self).ranking_view() == old(self).ranking_view() + nearest::<T>(
                by_weight(old(to_rank)@),
                num as int,
            ),
            final(self).id_view() == old(self).id_view(),
            final(self).score_view() == old(self).score_view(),
    {
        sort_by_weight(to_rank);
        let ghost sorted = to_rank@;
        let ghost before = self.ranking_view();
        let mut i: usize = 0;
        proof {
            assert(before =~= before + nearest::<T>(sorted, 0));
        }
        while i < to_rank.len() && i < num as usize
            invariant
                i <= to_rank@.len(),
                i <= num,
                to_rank@ == sorted,
                self.ranking_view() == before + nearest::<T>(sorted, i as int),
                self.id_view() == old(self).id_view(),
                self.score_view() == old(self).score_view(),
            decreases to_rank@.len() - i,
        {
            self.add_ranking(to_rank[i].1);
            proof {
                assert(nearest::<T>(sorted, i + 1) =~= nearest::<T>(sorted, i as int).push(
                    sorted[i as int].1.listed_as(),
                ));
                assert(self.ranking_view() =~= before + nearest::<T>(sorted, i + 1));
            }
            i += 1;
        }
        proof {
            assert(nearest::<T>(sorted, i as int) =~= nearest::<T>(sorted, num as int));
        }
    }
}

/// The listings of the first `n` candidates of `sorted`, or of all where
/// there are fewer.
pub open spec fn nearest<T: Competitive>(sorted: Seq<(u32, &T)>, n: int) -> Seq<u32> {
    Seq::new(
        if n <= sorted.len() {
            n as nat
        } else {
            sorted.len()
        },
        |i: int| sorted[i].1.listed_as(),
    )
}

/// A candidate with its distance weighs as much as it is far.
impl<'a, T> Weighted for (u32, &'a T) {
    open spec fn weight(self) -> int {
        self.0 as int
    }

    fn lighter(&self, other: &Self) -> (yes: bool) {
        self.0 < other.0
    }
}

/// An application weighs the less the greater its score: the most
/// competitive applicant comes first.
impl Weighted for (u32, u32) {
    open spec fn weight(self) -> int {
        0 - self.1
    }

    fn lighter(&self, other: &Self) -> (yes: bool) {
        self.1 > other.1
    }
}

impl Competitive for Applicant {
    open spec fn score_view(&self) -> u32 {
        self.competitiveness
    }

    open spec fn listed_as(&self) -> u32 {
        self.id
    }

    fn competitiveness(&self) -> (score: u32) {
        self.competitiveness
    }
}

impl Competitive for Program {
    open spec fn score_view(&self) -> u32 {
        self.competitiveness
    }

    open spec fn listed_as(&self) -> u32 {
        self.id
    }

    fn competitiveness(&self) -> (score: u32) {
        self.competitiveness
    }
}

impl Rankable<Program> for Applicant {
    open spec fn id_view(&self) -> u32 {
        self.id
    }

    open spec fn ranking_view(&self) -> Seq<u32> {
        self.ranking@
    }

    fn id(&self) -> (id: u32) {
        self.id
    }

    fn ranking(&self) -> (list: Vec<u32>) {
        self.ranking.clone()
    }

    fn add_ranking(&mut self, to_add: &Program)
        ensures
            final(self)@ == (ApplicantView { ranking: old(self)@.ranking.push(to_add.id), ..old(self)@ }),
    {
        self.ranking.push(to_add.id);
    }
}

impl Rankable<Applicant> for Program {
    open spec fn id_view(&self) -> u32 {
        self.id
    }

    open spec fn ranking_view(&self) -> Seq<u32> {
        self@.ranked()
    }

    fn id(&self) -> (id: u32) {
        self.id
    }

    fn ranking(&self) -> (list: Vec<u32>) {
        let mut list: Vec<u32> = Vec::new();
        let mut i: usize = 0;
        while i < self.ranking.len()
            invariant
                i <= self.ranking@.len(),
                list@ == self@.ranked().take(i as int),
            decreases self.ranking@.len() - i,
        {
            list.push(self.ranking[i].0);
            proof {
                assert(self@.ranked().take(i + 1) =~= self@.ranked().take(i as int).push(self.ranking@[i as int].0));
            }
            i += 1;
        }
        proof {
            assert(self@.ranked().take(i as int) =~= self@.ranked());
        }
        list
    }

    fn add_ranking(&mut self, to_add: &Applicant)
        ensures
            final(self)@ == (ProgramView {
                ranking: old(self)@.ranking.push((to_add.id, to_add.competitiveness)),
                ..old(self)@
            }),
    {
        self.ranking.push((to_add.id, to_add.competitiveness));
        proof {
            assert(final(self)@.ranked() =~= old(self)@.ranked().push(to_add.id));
        }
    }
}

impl ReceiveApplication<Applicant> for Program {
    open spec fn received(&self) -> Seq<(u32, u32)> {
        self.ranking@
    }

    open spec fn entry_of(applicant: &Applicant) -> (u32, u32) {
        (applicant.id, applicant.competitiveness)
    }

    fn receive_application(&mut self, applicant: &Applicant)
        ensures
            final(self)@ == listed(old(self)@, (applicant.id, applicant.competitiveness)),
    {
        self.add_ranking(applicant);
        sort_by_weight(&mut self.ranking);
    }
}

/// `p` after it has listed the application `entry`.
pub open spec fn listed(p: ProgramView, entry: (u32, u32)) -> ProgramView {
    ProgramView { ranking: by_weight(p.ranking.push(entry)), ..p }
}

/// The score bands that an applicant applies in. A program is within reach
/// where its score is at least `reach_floor`; it is realistic where its
/// score is below `realistic_ceiling` and at least `realistic_floor`; it is
/// safe where its score is below `safety_ceiling` and at least
/// `safety_floor`.
pub struct RankBands {
    pub reach_floor: u32,
    pub realistic_ceiling: u32,
    pub realistic_floor: u32,
    pub safety_ceiling: u32,
    pub safety_floor: u32,
}

/// How many programs an applicant applies to in each band, at most.
pub struct RankQuota {
    pub reach: usize,
    pub realistic: usize,
    pub safety: usize,
}

/// Whether `score` is at least `floor` and, where there is a ceiling, below
/// it.
pub open spec fn in_band(score: u32, floor: u32, ceiling: Option<u32>) -> bool {
    score >= floor && match ceiling {
        Some(c) => score < c,
        None => true,
    }
}

/// The identifiers of the first `quota` programs of the table that are
/// left to pick from and whose score is in the band, in table order; of all
/// such programs where there are fewer. A program is left to pick from
/// where `taken` does not name it.
pub open spec fn picks(
    programs: Seq<ProgramView>,
    floor: u32,
    ceiling: Option<u32>,
    quota: nat,
    taken: Seq<u32>,
) -> Seq<u32>
    decreases programs.len(),
{
    if programs.len() == 0 || quota == 0 {
        seq![]
    } else if in_band(programs[0].competitiveness, floor, ceiling) && !taken.contains(programs[0].id) {
        seq![programs[0].id] + picks(programs.drop_first(), floor, ceiling, (quota - 1) as nat, taken)
    } else {
        picks(programs.drop_first(), floor, ceiling, quota, taken)
    }
}

/// The programs picked within reach.
pub open spec fn reach_picks(programs: Seq<ProgramView>, bands: RankBands, quota: RankQuota) -> Seq<u32> {
    picks(programs, bands.reach_floor, None, quota.reach as nat, Seq::empty())
}

/// The realistic programs picked among those that were not picked within
/// reach.
pub open spec fn realistic_picks(programs: Seq<ProgramView>, bands: RankBands, quota: RankQuota) -> Seq<u32> {
    picks(
        programs,
        bands.realistic_floor,
        Some(bands.realistic_ceiling),
        quota.realistic as nat,
        reach_picks(programs, bands, quota),
    )
}

/// The safe programs picked among those that were picked neither within
/// reach nor as realistic.
pub open spec fn safety_picks(programs: Seq<ProgramView>, bands: RankBands, quota: RankQuota) -> Seq<u32> {
    picks(
        programs,
        bands.safety_floor,
        Some(bands.safety_ceiling),
        quota.safety as nat,
        reach_picks(programs, bands, quota) + realistic_picks(programs, bands, quota),
    )
}

/// The programs that an applicant applies to: those picked within reach,
/// then the realistic ones among the remaining programs, then the safe ones
/// among those that remain after that.
pub open spec fn choices(programs: Seq<ProgramView>, bands: RankBands, quota: RankQuota) -> Seq<u32> {
    reach_picks(programs, bands, quota) + realistic_picks(programs, bands, quota) + safety_picks(
        programs,
        bands,
        quota,
    )
}

/// The table after the programs named in `ids` have each listed the
/// application `entry`, one after the other. An identifier that names no
/// program of the table changes nothing.
pub open spec fn applied(programs: Seq<ProgramView>, ids: Seq<u32>, entry: (u32, u32)) -> Seq<ProgramView>
    decreases ids.len(),
{
    if ids.len() == 0 {
        programs
    } else {
        let before = applied(programs, ids.drop_last(), entry);
        match find_program(before, ids.last()) {
            Some(p) => before.update(p, listed(before[p], entry)),
            None => before,
        }
    }
}

/// Whether one of the first `upto` entries of `list` is `id`.
fn named_before(list: &Vec<u32>, upto: usize, id: u32) -> (yes: bool)
    requires
        upto <= list@.len(),
    ensures
        yes == list@.take(upto as int).contains(id),
{
    let mut i: usize = 0;
    while i < upto
        invariant
            i <= upto,
            upto <= list@.len(),
            forall|j: int| 0 <= j < i ==> list@[j] != id,
        decreases upto - i,
    {
        if list[i] == id {
            proof {
                assert(list@.take(upto as int)[i as int] == id);
            }
            return true;
        }
        i += 1;
    }
    proof {
        assert forall|j: int| 0 <= j < upto implies list@.take(upto as int)[j] != id by {
            assert(list@.take(upto as int)[j] == list@[j]);
        }
    }
    false
}

/// Appends to `out` the programs picked in one band from those that `out`
/// does not name yet.
fn pick(programs: &Vec<Program>, floor: u32, ceiling: Option<u32>, quota: usize, out: &mut Vec<u32>)
    ensures
        final(out)@ == old(out)@ + picks(programs_view(programs@), floor, ceiling, quota as nat, old(out)@),
{
    let ghost table = programs_view(programs@);
    let ghost gone = out@;
    let known = out.len();
    let mut taken: usize = 0;
    let mut i: usize = 0;
    proof {
        assert(table.skip(0) =~= table);
    }
    while i < programs.len() && taken < quota
        invariant
            i <= programs@.len(),
            taken <= quota,
            table == programs_view(programs@),
            gone == old(out)@,
            known == gone.len(),
            out@.len() >= known,
            out@.take(known as int) == gone,
            out@ + picks(table.skip(i as int), floor, ceiling, (quota - taken) as nat, gone) == gone + picks(
                table,
                floor,
                ceiling,
                quota as nat,
                gone,
            ),
        decreases programs@.len() - i,
    {
        let score = programs[i].competitiveness;
        let inside = score >= floor && match ceiling {
            Some(c) => score < c,
            None => true,
        };
        let ghost here = table.skip(i as int);
        let ghost was = out@;
        proof {
            assert(here.drop_first() =~= table.skip(i + 1));
            assert(here[0] == programs@[i as int]@);
        }
        if inside && !named_before(out, known, programs[i].id) {
            out.push(programs[i].id);
            taken += 1;
            proof {
                let tail = picks(table.skip(i + 1), floor, ceiling, (quota - taken) as nat, gone);
                assert(out@ + tail =~= was + (seq![here[0].id] + tail));
                assert(out@.take(known as int) =~= gone);
            }
        }
        i += 1;
    }
    proof {
        assert(out@ + Seq::<u32>::empty() =~= out@);
    }
}

/// The index of the first program of `programs` with identifier `id`.
fn find_by_id(programs: &Vec<Program>, id: u32) -> (found: Option<usize>)
    ensures
        match found {
            Some(p) => {
                &&& p < programs@.len()
                &&& programs@[p as int].id == id
                &&& find_program(programs_view(programs@), id) == Some(p as int)
            },
            None => find_program(programs_view(programs@), id) is None,
        },
{
    let ghost ids = program_ids(programs_view(programs@));
    let mut p: usize = 0;
    while p < programs.len()
        invariant
            p <= programs@.len(),
            ids == program_ids(programs_view(programs@)),
            forall|q: int| 0 <= q < p ==> ids[q] != id,
        decreases programs@.len() - p,
    {
        if programs[p].id == id {
            proof {
                assert(ids[p as int] == id);
                ids.index_of_first_ensures(id);
            }
            return Some(p);
        }
        p += 1;
    }
    proof {
        ids.index_of_first_ensures(id);
    }
    None
}

/// Sends the applications of `applicant` to the programs named in `ids`:
/// the applicant puts each on its list, and each lists the applicant.
fn apply_to(applicant: &mut Applicant, programs: &mut Vec<Program>, ids: &Vec<u32>)
    ensures
        final(applicant)@ == (ApplicantView {
            ranking: old(applicant)@.ranking + sent(programs_view(old(programs)@), ids@),
            ..old(applicant)@
        }),
        programs_view(final(programs)@) == applied(
            programs_view(old(programs)@),
            ids@,
            (old(applicant).id, old(applicant).competitiveness),
        ),
{
    let ghost table = programs_view(programs@);
    let ghost entry = (applicant.id, applicant.competitiveness);
    let ghost list = applicant@.ranking;
    let mut i: usize = 0;
    proof {
        assert(ids@.take(0) =~= Seq::<u32>::empty());
        assert(list + sent(table, ids@.take(0)) =~= list);
    }
    while i < ids.len()
        invariant
            i <= ids@.len(),
            entry == (applicant.id, applicant.competitiveness),
            applicant@ == (ApplicantView { ranking: list + sent(table, ids@.take(i as int)), ..old(applicant)@ }),
            programs_view(programs@) == applied(table, ids@.take(i as int), entry),
        decreases ids@.len() - i,
    {
        proof {
            assert(ids@.take(i + 1).drop_last() =~= ids@.take(i as int));
            assert(ids@.take(i + 1).last() == ids@[i as int]);
            lemma_applied_keeps_ids(table, ids@.take(i as int), entry);
        }
        let ghost before = programs_view(programs@);
        match find_by_id(programs, ids[i]) {
            Some(p) => {
                applicant.add_ranking(&programs[p]);
                programs[p].receive_application(applicant);
                proof {
                    assert(programs_view(programs@) =~= before.update(p as int, listed(before[p as int], entry)));
                    assert(find_program(table, ids@[i as int]) == find_program(before, ids@[i as int]));
                    assert(sent(table, ids@.take(i + 1)) == sent(table, ids@.take(i as int)).push(ids@[i as int]));
                    assert(applicant@.ranking =~= list + sent(table, ids@.take(i + 1)));
                }
            },
            None => {
                proof {
                    assert(find_program(table, ids@[i as int]) == find_program(before, ids@[i as int]));
                    assert(applicant@.ranking =~= list + sent(table, ids@.take(i + 1)));
                }
            },
        }
        i += 1;
    }
    proof {
        assert(ids@.take(i as int) =~= ids@);
    }
}

/// The identifiers of `ids` that name a program of the table, in order.
pub open spec fn sent(programs: Seq<ProgramView>, ids: Seq<u32>) -> Seq<u32>
    decreases ids.len(),
{
    if ids.len() == 0 {
        seq![]
    } else if find_program(programs, ids.last()) is Some {
        sent(programs, ids.drop_last()).push(ids.last())
    } else {
        sent(programs, ids.drop_last())
    }
}

/// Listing applications changes no identifier of the table.
pub proof fn lemma_applied_keeps_ids(programs: Seq<ProgramView>, ids: Seq<u32>, entry: (u32, u32))
    ensures
        program_ids(applied(programs, ids, entry)) == program_ids(programs),
        forall|id: u32| find_program(applied(programs, ids, entry), id) == find_program(programs, id),
    decreases ids.len(),
{
    if ids.len() > 0 {
        lemma_applied_keeps_ids(programs, ids.drop_last(), entry);
        let before = applied(programs, ids.drop_last(), entry);
        crate::laws::lemma_find_program(before, ids.last());
        assert(program_ids(applied(programs, ids, entry)) =~= program_ids(before));
    }
}

/// Builds the preference list of one arriving unit and has every program on
/// it list the unit's members.
///
/// The first applicant applies to the programs that [`choices`] picks from
/// the table as it stands, in that order: each band is picked from the
/// programs that no earlier band took, so that no program is applied to
/// twice. A partner applies to the same programs after it, in the same
/// order.
pub fn rank(applicant: &mut Couple<Applicant>, programs: &mut Vec<Program>, bands: &RankBands, quota: &RankQuota)
    ensures
        ({
            let table = programs_view(old(programs)@);
            let all = choices(table, *bands, *quota);
            let first = old(applicant).0;
            let after_first = applied(table, all, (first.id, first.competitiveness));
            &&& final(applicant).0@ == (ApplicantView { ranking: first@.ranking + all, ..first@ })
            &&& program_ids(table).no_duplicates() ==> all.no_duplicates()
            &&& match old(applicant).1 {
                Some(second) => {
                    &&& final(applicant).1 matches Some(b) && b@ == (ApplicantView {
                        ranking: second@.ranking + all,
                        ..second@
                    })
                    &&& programs_view(final(programs)@) == applied(
                        after_first,
                        all,
                        (second.id, second.competitiveness),
                    )
                },
                None => final(applicant).1 is None && programs_view(final(programs)@) == after_first,
            }
        }),
{
    let ghost table = programs_view(programs@);
    let mut all: Vec<u32> = Vec::new();
    proof {
        assert(all@ =~= Seq::<u32>::empty());
    }
    pick(programs, bands.reach_floor, None, quota.reach, &mut all);
    proof {
        assert(all@ =~= reach_picks(table, *bands, *quota));
    }
    pick(programs, bands.realistic_floor, Some(bands.realistic_ceiling), quota.realistic, &mut all);
    proof {
        assert(all@ =~= reach_picks(table, *bands, *quota) + realistic_picks(table, *bands, *quota));
    }
    pick(programs, bands.safety_floor, Some(bands.safety_ceiling), quota.safety, &mut all);
    proof {
        assert(all@ =~= choices(table, *bands, *quota));
        lemma_choices_sent(table, *bands, *quota);
        if program_ids(table).no_duplicates() {
            law_choices_distinct(table, *bands, *quota);
        }
    }
    apply_to(&mut applicant.0, programs, &all);
    let ghost after_first = programs_view(programs@);
    proof {
        lemma_applied_keeps_ids(table, all@, (old(applicant).0.id, old(applicant).0.competitiveness));
        lemma_sent_same(table, after_first, all@);
    }
    match &mut applicant.1 {
        Some(second) => {
            apply_to(second, programs, &all);
        },
        None => {},
    }
}

/// Where two tables name the same programs, the same applications are sent.
pub proof fn lemma_sent_same(programs: Seq<ProgramView>, other: Seq<ProgramView>, ids: Seq<u32>)
    requires
        forall|id: u32| find_program(other, id) == find_program(programs, id),
    ensures
        sent(other, ids) == sent(programs, ids),
    decreases ids.len(),
{
    if ids.len() > 0 {
        lemma_sent_same(programs, other, ids.drop_last());
    }
}

/// Every program that is picked is a program of the table that was left
/// to pick from; and where no two programs of the table share an
/// identifier, none is picked twice.
pub proof fn lemma_picks_fresh(
    programs: Seq<ProgramView>,
    floor: u32,
    ceiling: Option<u32>,
    quota: nat,
    taken: Seq<u32>,
)
    ensures
        forall|i: int|
            0 <= i < picks(programs, floor, ceiling, quota, taken).len() ==> program_ids(programs).contains(
                #[trigger] picks(programs, floor, ceiling, quota, taken)[i],
            ) && !taken.contains(picks(programs, floor, ceiling, quota, taken)[i]),
        program_ids(programs).no_duplicates() ==> picks(programs, floor, ceiling, quota, taken).no_duplicates(),
    decreases programs.len(),
{
    let all = picks(programs, floor, ceiling, quota, taken);
    if programs.len() > 0 && quota > 0 {
        let rest = programs.drop_first();
        let first = in_band(programs[0].competitiveness, floor, ceiling) && !taken.contains(programs[0].id);
        let q = if first {
            (quota - 1) as nat
        } else {
            quota
        };
        lemma_picks_fresh(rest, floor, ceiling, q, taken);
        let tail = picks(rest, floor, ceiling, q, taken);
        assert forall|i: int| 0 <= i < all.len() implies program_ids(programs).contains(#[trigger] all[i])
            && !taken.contains(all[i]) by {
            if first && i == 0 {
                assert(program_ids(programs)[0] == all[0]);
            } else {
                let j = if first {
                    i - 1
                } else {
                    i
                };
                assert(all[i] == tail[j]);
                assert(program_ids(rest).contains(tail[j]));
                let k = choose|k: int| 0 <= k < program_ids(rest).len() && program_ids(rest)[k] == tail[j];
                assert(program_ids(programs)[k + 1] == tail[j]);
            }
        }
        if program_ids(programs).no_duplicates() {
            assert forall|x: int, y: int| 0 <= x < y < program_ids(rest).len() implies program_ids(rest)[x]
                != program_ids(rest)[y] by {
                assert(program_ids(rest)[x] == program_ids(programs)[x + 1]);
                assert(program_ids(rest)[y] == program_ids(programs)[y + 1]);
            }
            assert(program_ids(rest).no_duplicates());
            assert forall|x: int, y: int| 0 <= x < all.len() && 0 <= y < all.len() && x != y implies all[x]
                != all[y] by {
                if first {
                    if x == 0 || y == 0 {
                        let other = if x == 0 {
                            y
                        } else {
                            x
                        };
                        assert(all[other] == tail[other - 1]);
                        assert(program_ids(rest).contains(tail[other - 1]));
                        let k = choose|k: int|
                            0 <= k < program_ids(rest).len() && program_ids(rest)[k] == tail[other - 1];
                        assert(program_ids(programs)[k + 1] == tail[other - 1]);
                        assert(program_ids(programs)[0] == all[0]);
                    } else {
                        assert(all[x] == tail[x - 1] && all[y] == tail[y - 1]);
                    }
                }
            }
        }
    }
}

/// **No program twice.** Where no two programs of the table share an
/// identifier, an applicant applies to no program twice.
pub proof fn law_choices_distinct(programs: Seq<ProgramView>, bands: RankBands, quota: RankQuota)
    requires
        program_ids(programs).no_duplicates(),
    ensures
        choices(programs, bands, quota).no_duplicates(),
{
    let a = reach_picks(programs, bands, quota);
    let b = realistic_picks(programs, bands, quota);
    let c = safety_picks(programs, bands, quota);
    lemma_picks_fresh(programs, bands.reach_floor, None, quota.reach as nat, Seq::empty());
    lemma_picks_fresh(programs, bands.realistic_floor, Some(bands.realistic_ceiling), quota.realistic as nat, a);
    lemma_picks_fresh(programs, bands.safety_floor, Some(bands.safety_ceiling), quota.safety as nat, a + b);
    assert forall|i: int, j: int| 0 <= i < a.len() && 0 <= j < b.len() implies a[i] != b[j] by {
        assert(!a.contains(b[j]));
    }
    vstd::seq_lib::lemma_no_dup_in_concat(a, b);
    assert forall|i: int, j: int| 0 <= i < (a + b).len() && 0 <= j < c.len() implies (a + b)[i] != c[j] by {
        assert(!(a + b).contains(c[j]));
    }
    vstd::seq_lib::lemma_no_dup_in_concat(a + b, c);
}

/// Every identifier that names a program of the table is sent.
pub proof fn lemma_all_sent(programs: Seq<ProgramView>, ids: Seq<u32>)
    requires
        forall|i: int| 0 <= i < ids.len() ==> program_ids(programs).contains(#[trigger] ids[i]),
    ensures
        sent(programs, ids) == ids,
    decreases ids.len(),
{
    if ids.len() > 0 {
        let front = ids.drop_last();
        assert forall|i: int| 0 <= i < front.len() implies program_ids(programs).contains(#[trigger] front[i]) by {
            assert(front[i] == ids[i]);
        }
        lemma_all_sent(programs, front);
        assert(program_ids(programs).contains(ids[ids.len() - 1]));
        program_ids(programs).index_of_first_ensures(ids.last());
        assert(front.push(ids.last()) =~= ids);
    }
}

/// The applications of an applicant all go out.
pub proof fn lemma_choices_sent(programs: Seq<ProgramView>, bands: RankBands, quota: RankQuota)
    ensures
        sent(programs, choices(programs, bands, quota)) == choices(programs, bands, quota),
{
    let a = reach_picks(programs, bands, quota);
    let b = realistic_picks(programs, bands, quota);
    let c = safety_picks(programs, bands, quota);
    lemma_picks_fresh(programs, bands.reach_floor, None, quota.reach as nat, Seq::empty());
    lemma_picks_fresh(programs, bands.realistic_floor, Some(bands.realistic_ceiling), quota.realistic as nat, a);
    lemma_picks_fresh(programs, bands.safety_floor, Some(bands.safety_ceiling), quota.safety as nat, a + b);
    let all = choices(programs, bands, quota);
    assert forall|i: int| 0 <= i < all.len() implies program_ids(programs).contains(#[trigger] all[i]) by {
        if i < a.len() {
            assert(all[i] == a[i]);
        } else if i < a.len() + b.len() {
            assert(all[i] == b[i - a.len()]);
        } else {
            assert(all[i] == c[i - a.len() - b.len()]);
        }
    }
    lemma_all_sent(programs, all);
}

/// How many applicants a program ranks for each of its seats.
pub const CANDIDATES_PER_SEAT: u8 = 15;

/// The entries under which the first `n` candidates of `sorted` are listed
/// by a program: identifier and score each; those of all candidates where
/// there are fewer.
pub open spec fn nearest_entries(sorted: Seq<(u32, &Applicant)>, n: int) -> Seq<(u32, u32)> {
    Seq::new(
        if n <= sorted.len() {
            n as nat
        } else {
            sorted.len()
        },
        |i: int| (sorted[i].1.id, sorted[i].1.competitiveness),
    )
}

/// Ranks the programs nearest to an arriving unit. The first member ranks
/// as many as it sends applications, nearest first; a partner takes over
/// the list of the first member as it then stands.
pub fn naive_rank_unit(unit: &mut Couple<Applicant>, to_rank: &mut Vec<(u32, &Program)>)
    ensures
        final(to_rank)@ == by_weight(old(to_rank)@),
        final(unit).0@ == (ApplicantView {
            ranking: old(unit).0@.ranking + nearest::<Program>(
                by_weight(old(to_rank)@),
                old(unit).0.applications as int,
            ),
            ..old(unit).0@
        }),
        match old(unit).1 {
            Some(second) => final(unit).1 matches Some(b) && b@ == (ApplicantView {
                ranking: final(unit).0@.ranking,
                ..second@
            }),
            None => final(unit).1 is None,
        },
{
    sort_by_weight(to_rank);
    let ghost sorted = to_rank@;
    let ghost before = unit.0@;
    let num = unit.0.applications;
    let mut i: usize = 0;
    proof {
        assert(before.ranking =~= before.ranking + nearest::<Program>(sorted, 0));
    }
    while i < to_rank.len() && i < num as usize
        invariant
            i <= to_rank@.len(),
            i <= num,
            to_rank@ == sorted,
            unit.1 == old(unit).1,
            unit.0@ == (ApplicantView { ranking: before.ranking + nearest::<Program>(sorted, i as int), ..before }),
        decreases to_rank@.len() - i,
    {
        unit.0.add_ranking(to_rank[i].1);
        proof {
            assert(unit.0@.ranking =~= before.ranking + nearest::<Program>(sorted, i + 1));
        }
        i += 1;
    }
    proof {
        assert(nearest::<Program>(sorted, i as int) =~= nearest::<Program>(sorted, num as int));
    }
    let list = unit.0.ranking.clone();
    match &mut unit.1 {
        Some(second) => {
            second.ranking = list;
        },
        None => {},
    }
}

/// Ranks the applicants nearest to a program: [`CANDIDATES_PER_SEAT`] for
/// each of its seats, nearest first.
pub fn naive_rank_program(program: &mut Program, to_rank: &mut Vec<(u32, &Applicant)>)
    requires
        old(program).capacity * CANDIDATES_PER_SEAT <= u8::MAX,
    ensures
        final(to_rank)@ == by_weight(old(to_rank)@),
        final(program)@ == (ProgramView {
            ranking: old(program)@.ranking + nearest_entries(
                by_weight(old(to_rank)@),
                old(program).capacity * CANDIDATES_PER_SEAT,
            ),
            ..old(program)@
        }),
{
    sort_by_weight(to_rank);
    let ghost sorted = to_rank@;
    let ghost before = program@;
    let num: u8 = program.capacity * CANDIDATES_PER_SEAT;
    let mut i: usize = 0;
    proof {
        assert(before.ranking =~= before.ranking + nearest_entries(sorted, 0));
    }
    while i < to_rank.len() && i < num as usize
        invariant
            i <= to_rank@.len(),
            i <= num,
            to_rank@ == sorted,
            program@ == (ProgramView { ranking: before.ranking + nearest_entries(sorted, i as int), ..before }),
        decreases to_rank@.len() - i,
    {
        program.add_ranking(to_rank[i].1);
        proof {
            assert(program@.ranking =~= before.ranking + nearest_entries(sorted, i + 1));
        }
        i += 1;
    }
    proof {
        assert(nearest_entries(sorted, i as int) =~= nearest_entries(sorted, num as int));
    }
}

} // verus!
