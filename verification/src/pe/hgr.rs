//! Cluster solutions in text form: line `i` holds the number of the part of
//! endpoint group `i`; empty lines hold none.

use super::budget::{are_groups, over_budget};
use super::partition::{is_easy, schedulable, Partition};
use super::process::{builds, lists, pool, process_ok, process_partitions};
use crate::aig::AIG;
use crate::staging::StagedAIG;
use crate::text::{is_number, number_of, parse_usize};
use vstd::prelude::*;

verus! {

/// What is wrong with a cluster solution.
#[derive(Debug, Clone, Copy, PartialEq, Eq, Structural)]
pub enum HgrError {
    /// The line is not a number.
    BadLine(usize),
    /// There is no such endpoint group.
    UnknownEndpoint(usize),
    /// There is no part.
    Empty,
}

/// The part in a line.
pub open spec fn line_part(line: Seq<char>) -> Option<usize> {
    if line.len() == 0 || !is_number(line) {
        None
    } else {
        Some(number_of(line) as usize)
    }
}

/// Is the line neither empty nor a number?
pub open spec fn is_bad_line(line: Seq<char>) -> bool {
    line.len() != 0 && !is_number(line)
}

/// The endpoint groups of a part among the first `n` lines.
pub open spec fn part_members(lines: Seq<String>, n: nat, part: usize) -> Seq<usize>
    decreases n,
{
    if n == 0 {
        Seq::empty()
    } else {
        let rest = part_members(lines, (n - 1) as nat, part);
        if line_part(lines[n - 1]@) == Some(part) {
            rest.push((n - 1) as usize)
        } else {
            rest
        }
    }
}

/// The number of parts among the first `n` lines: one more than the highest
/// number of a part.
pub open spec fn part_count(lines: Seq<String>, n: nat) -> nat
    decreases n,
{
    if n == 0 {
        0
    } else {
        let rest = part_count(lines, (n - 1) as nat);
        match line_part(lines[n - 1]@) {
            Some(p) => if rest <= p {
                p as nat + 1
            } else {
                rest
            },
            None => rest,
        }
    }
}

proof fn lemma_no_members(lines: Seq<String>, n: nat, part: usize)
    requires
        part_count(lines, n) <= part,
    ensures
        part_members(lines, n, part) == Seq::<usize>::empty(),
    decreases n,
{
    if n > 0 {
        lemma_no_members(lines, (n - 1) as nat, part);
    }
}

/// The members of a part are lines of it.
proof fn lemma_members(lines: Seq<String>, n: nat, part: usize)
    requires
        n <= usize::MAX,
    ensures
        forall|k: int|
            0 <= k < part_members(lines, n, part).len() ==> (#[trigger] part_members(lines, n, part)[k]) < n
                && line_part(lines[part_members(lines, n, part)[k] as int]@) == Some(part),
    decreases n,
{
    if n > 0 {
        lemma_members(lines, (n - 1) as nat, part);
        let rest = part_members(lines, (n - 1) as nat, part);
        assert forall|k: int| 0 <= k < part_members(lines, n, part).len() implies (#[trigger] part_members(
            lines,
            n,
            part,
        )[k]) < n && line_part(lines[part_members(lines, n, part)[k] as int]@) == Some(part) by {
            if k < rest.len() {
                assert(part_members(lines, n, part)[k] == rest[k]);
            }
        }
    }
}

/// Reads a cluster solution. The error is the first line that is not a number.
pub fn parts_from_hgr_lines(lines: &Vec<String>) -> (r: Result<Vec<Vec<usize>>, HgrError>)
    ensures
        match r {
            Ok(parts) => {
                &&& forall|i: int| 0 <= i < lines@.len() ==> !is_bad_line((#[trigger] lines@[i])@)
                &&& parts@.len() == part_count(lines@, lines@.len())
                &&& forall|p: int|
                    0 <= p < parts@.len() ==> (#[trigger] parts@[p])@ == part_members(
                        lines@,
                        lines@.len(),
                        p as usize,
                    )
                &&& pool(lists(parts@)).len() <= lines@.len()
            },
            Err(e) => e matches HgrError::BadLine(i) && i < lines@.len() && is_bad_line(lines@[i as int]@)
                && forall|k: int| 0 <= k < i ==> !is_bad_line((#[trigger] lines@[k])@),
        },
{
    let mut parts: Vec<Vec<usize>> = Vec::new();
    let mut i: usize = 0;
    assert(lists(parts@) =~= Seq::<Seq<usize>>::empty());
    while i < lines.len()
        invariant
            i <= lines@.len(),
            forall|k: int| 0 <= k < i ==> !is_bad_line((#[trigger] lines@[k])@),
            parts@.len() == part_count(lines@, i as nat),
            forall|p: int|
                0 <= p < parts@.len() ==> (#[trigger] parts@[p])@ == part_members(lines@, i as nat, p as usize),
            pool(lists(parts@)).len() <= i,
        decreases lines@.len() - i,
    {
        let line = lines[i].as_str();
        assert(line@ == lines@[i as int]@);
        if !crate::text::same_str(line, "") {
            proof {
                reveal_strlit("");
                assert(line@.len() != 0) by {
                    if line@.len() == 0 {
                        assert(line@ =~= ""@);
                    }
                }
            }
            let part_id = match parse_usize(line) {
                None => {
                    return Err(HgrError::BadLine(i));
                },
                Some(p) => p,
            };
            let ghost n0 = parts@.len();
            while parts.len() <= part_id
                invariant
                    n0 == part_count(lines@, i as nat),
                    n0 <= parts@.len(),
                    parts@.len() <= n0 || parts@.len() <= part_id + 1,
                    forall|p: int|
                        0 <= p < parts@.len() ==> (#[trigger] parts@[p])@ == part_members(
                            lines@,
                            i as nat,
                            p as usize,
                        ),
                    pool(lists(parts@)).len() <= i,
                decreases part_id + 1 - parts@.len(),
            {
                let ghost before = lists(parts@);
                proof {
                    lemma_no_members(lines@, i as nat, parts@.len() as usize);
                }
                parts.push(Vec::new());
                proof {
                    let e = Seq::<usize>::empty();
                    assert(parts@.last()@ =~= e);
                    assert(lists(parts@).drop_last() =~= before);
                    assert(lists(parts@).last() =~= e);
                    e.to_multiset_ensures();
                    assert(pool(lists(parts@)).len() == pool(before).len());
                }
            }
            let ghost before = parts@;
            let mut part = parts[part_id].clone();
            part.push(i);
            proof {
                super::process::lemma_pool_push(lists(parts@), part_id as int, i);
            }
            parts.set(part_id, part);
            proof {
                assert(parts@[part_id as int]@ =~= before[part_id as int]@.push(i));
                assert(lists(parts@) =~= lists(before).update(part_id as int, before[part_id as int]@.push(i)));
                assert forall|p: int| 0 <= p < parts@.len() implies (#[trigger] parts@[p])@ == part_members(
                    lines@,
                    (i + 1) as nat,
                    p as usize,
                ) by {
                    assert(before[p]@ == part_members(lines@, i as nat, p as usize));
                }
            }
        } else {
            proof {
                reveal_strlit("");
                assert(line@.len() == 0);
                assert forall|p: int| 0 <= p < parts@.len() implies (#[trigger] parts@[p])@ == part_members(
                    lines@,
                    (i + 1) as nat,
                    p as usize,
                ) by {}
            }
        }
        i += 1;
    }
    Ok(parts)
}

/// Reads a cluster solution, and maps and merges its parts.
pub fn process_partitions_from_hgr_lines(
    aig: &AIG,
    staged: &StagedAIG,
    lines: &Vec<String>,
    max_stage_degrad: usize,
) -> (r: Result<Option<Vec<Partition>>, HgrError>)
    requires
        schedulable(*aig),
        staged.wf(*aig),
        lines@.len() <= usize::MAX / 16,
    ensures
        r matches Err(HgrError::BadLine(i)) ==> i < lines@.len() && is_bad_line(lines@[i as int]@),
        r matches Err(HgrError::Empty) ==> forall|k: int| 0 <= k < lines@.len() ==> (#[trigger] lines@[k])@.len() == 0,
        r matches Err(HgrError::UnknownEndpoint(i)) ==> staged.group_count() <= i < lines@.len() && line_part(
            lines@[i as int]@,
        ) is Some,
        r is Ok <==> {
            &&& forall|k: int| 0 <= k < lines@.len() ==> !is_bad_line((#[trigger] lines@[k])@)
            &&& exists|k: int| 0 <= k < lines@.len() && (#[trigger] lines@[k])@.len() != 0
            &&& forall|k: int|
                staged.group_count() <= k < lines@.len() ==> (#[trigger] lines@[k])@.len() == 0
        },
        r matches Ok(Some(ps)) ==> exists|parts: Seq<Seq<usize>>| #[trigger]
            is_solution(lines@, parts) && process_ok(*aig, *staged, parts, max_stage_degrad, ps@),
        r matches Ok(None) ==> exists|parts: Seq<Seq<usize>>, i: int|
            #![trigger is_solution(lines@, parts), parts[i]]
            is_solution(lines@, parts) && 0 <= i < parts.len() && builds(*aig, *staged, parts[i], None),
        r matches Ok(ps) ==> forall|parts: Seq<Seq<usize>>| #[trigger]
            is_solution(lines@, parts) ==> {
                &&& (exists|i: int| 0 <= i < parts.len() && over_budget(*aig, *staged, #[trigger] parts[i])) ==> ps
                    is None
                &&& (forall|i: int|
                    0 <= i < parts.len() ==> !over_budget(*aig, *staged, #[trigger] parts[i]) && is_easy(
                        *aig,
                        *staged,
                        parts[i],
                    )) ==> ps is Some
            },
{
    let parts = match parts_from_hgr_lines(lines) {
        Err(e) => {
            return Err(e);
        },
        Ok(parts) => parts,
    };
    let n = staged.num_endpoint_groups();
    let mut filled = false;
    let mut i: usize = 0;
    while i < lines.len()
        invariant
            n == staged.group_count(),
            i <= lines@.len(),
            forall|k: int| 0 <= k < lines@.len() ==> !is_bad_line((#[trigger] lines@[k])@),
            filled <==> exists|k: int| 0 <= k < i && (#[trigger] lines@[k])@.len() != 0,
            forall|k: int| n <= k < i ==> (#[trigger] lines@[k])@.len() == 0,
        decreases lines@.len() - i,
    {
        proof {
            reveal_strlit("");
        }
        assert(!is_bad_line(lines@[i as int]@));
        let empty = crate::text::same_str(lines[i].as_str(), "");
        assert(empty == (lines@[i as int]@.len() == 0)) by {
            if lines@[i as int]@.len() == 0 {
                assert(lines@[i as int]@ =~= ""@);
            }
        }
        if !empty {
            filled = true;
            if i >= n {
                return Err(HgrError::UnknownEndpoint(i));
            }
        }
        i += 1;
    }
    if !filled {
        return Err(HgrError::Empty);
    }
    proof {
        let k = choose|k: int| 0 <= k < lines@.len() && (#[trigger] lines@[k])@.len() != 0;
        lemma_part_count(lines@, lines@.len(), k);
        assert forall|p: int| 0 <= p < parts@.len() implies are_groups(*staged, (#[trigger] parts@[p])@) by {
            lemma_members(lines@, lines@.len(), p as usize);
            assert forall|k: int| 0 <= k < parts@[p]@.len() implies #[trigger] parts@[p]@[k] < staged.group_count() by {
                let x = part_members(lines@, lines@.len(), p as usize)[k];
                assert(line_part(lines@[x as int]@) == Some(p as usize));
            }
        }
        assert(is_solution(lines@, lists(parts@)));
        assert forall|other: Seq<Seq<usize>>| #[trigger] is_solution(lines@, other) implies other == lists(parts@) by {
            assert(other =~= lists(parts@));
        }
        assert forall|p: int| #![trigger lists(parts@)[p]] 0 <= p < parts@.len()
            implies lists(parts@)[p] == parts@[p]@ by {
        }
    }
    let ghost sol = lists(parts@);
    let r = process_partitions(aig, staged, parts, max_stage_degrad);
    proof {
        if r is None {
            let i = choose|i: int| 0 <= i < parts@.len() && builds(*aig, *staged, (#[trigger] parts@[i])@, None);
            assert(is_solution(lines@, sol) && builds(*aig, *staged, sol[i], None));
        }
        assert forall|other: Seq<Seq<usize>>| #[trigger] is_solution(lines@, other) implies {
            &&& (exists|i: int| 0 <= i < other.len() && over_budget(*aig, *staged, #[trigger] other[i])) ==> r is None
            &&& (forall|i: int|
                0 <= i < other.len() ==> !over_budget(*aig, *staged, #[trigger] other[i]) && is_easy(
                    *aig,
                    *staged,
                    other[i],
                )) ==> r is Some
        } by {
            assert(other == sol);
            if exists|i: int| 0 <= i < other.len() && over_budget(*aig, *staged, #[trigger] other[i]) {
                let i = choose|i: int| 0 <= i < other.len() && over_budget(*aig, *staged, #[trigger] other[i]);
                assert(over_budget(*aig, *staged, parts@[i]@));
            }
            if forall|i: int|
                0 <= i < other.len() ==> !over_budget(*aig, *staged, #[trigger] other[i]) && is_easy(
                    *aig,
                    *staged,
                    other[i],
                ) {
                assert forall|i: int| 0 <= i < parts@.len() implies !over_budget(*aig, *staged, (#[trigger] parts@[i])@)
                    && is_easy(*aig, *staged, parts@[i]@) by {
                    assert(sol[i] == parts@[i]@);
                }
            }
        }
    }
    Ok(r)
}

/// Are these the parts that the lines tell of?
pub open spec fn is_solution(lines: Seq<String>, parts: Seq<Seq<usize>>) -> bool {
    &&& parts.len() == part_count(lines, lines.len())
    &&& forall|p: int| 0 <= p < parts.len() ==> #[trigger] parts[p] == part_members(lines, lines.len(), p as usize)
}

/// A line with a part makes for at least one part.
proof fn lemma_part_count(lines: Seq<String>, n: nat, k: int)
    requires
        0 <= k < n <= lines.len(),
        lines[k]@.len() != 0,
        !is_bad_line(lines[k]@),
    ensures
        part_count(lines, n) > 0,
    decreases n,
{
    if k < n - 1 {
        lemma_part_count(lines, (n - 1) as nat, k);
    }
}

/// Lines name parts: an endpoint group is in a part if and only if its line holds the
/// number of the part, and the groups of a part come in ascending order. There is a part
/// for every number up to the highest one.
pub proof fn law_lines_name_parts(lines: Seq<String>, n: nat, part: usize, i: usize)
    requires
        n <= lines.len(),
        n <= usize::MAX,
    ensures
        part_members(lines, n, part).contains(i) <==> i < n && lines[i as int]@.len() > 0 && is_number(
            lines[i as int]@,
        ) && number_of(lines[i as int]@) == part,
        forall|x: int, y: int|
            0 <= x < y < part_members(lines, n, part).len() ==> #[trigger] part_members(lines, n, part)[x]
                < #[trigger] part_members(lines, n, part)[y],
        i < n && lines[i as int]@.len() > 0 && is_number(lines[i as int]@) ==> number_of(lines[i as int]@)
            < part_count(lines, n),
        part_count(lines, n) > 0 ==> exists|k: int|
            0 <= k < n && is_number(#[trigger] lines[k]@) && number_of(lines[k]@) + 1 == part_count(lines, n),
    decreases n,
{
    if n > 0 {
        law_lines_name_parts(lines, (n - 1) as nat, part, i);
        lemma_members(lines, (n - 1) as nat, part);
        let rest = part_members(lines, (n - 1) as nat, part);
        let all = part_members(lines, n, part);
        assert forall|x: int, y: int| 0 <= x < y < all.len() implies #[trigger] all[x] < #[trigger] all[y] by {
            assert(all[x] == rest[x]);
            if y < rest.len() {
                assert(all[y] == rest[y]);
            }
        }
        if rest.contains(i) {
            assert(all[rest.index_of(i)] == i);
        }
        if all.len() > rest.len() {
            assert(all[rest.len() as int] == n - 1);
        }
        if all.contains(i) {
            let x = all.index_of(i);
            if x < rest.len() {
                assert(rest[x] == i);
            }
        }
        if part_count(lines, n) > 0 {
            if part_count(lines, n) == part_count(lines, (n - 1) as nat) {
                let k = choose|k: int|
                    0 <= k < n - 1 && is_number(#[trigger] lines[k]@) && number_of(lines[k]@) + 1 == part_count(
                        lines,
                        (n - 1) as nat,
                    );
                assert(is_number(lines[k]@));
            } else {
                assert(is_number(lines[n - 1]@));
            }
        }
    }
}

} // verus!
