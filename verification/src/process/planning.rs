//! The pages that a program is planned to have.
use vstd::prelude::*;

use crate::elf::{self, ProgramHeader};
use crate::process::{self, PagePlan, ProcessError};

verus! {

/// The flags of a page of a program, by whether it is written and run.
pub open spec fn page_flags(writable: bool, executable: bool) -> u64 {
    if writable && executable {
        6u64
    } else if executable {
        4u64
    } else if writable {
        0x8000_0000_0000_0006u64
    } else {
        0x8000_0000_0000_0004u64
    }
}

/// Whether a segment has bytes in the page that begins at `page`.
pub open spec fn touches(h: ProgramHeader, base: u64, page: int) -> bool {
    let start = process::segment_start(h, base);
    &&& process::is_load(h)
    &&& page % 4096 == 0
    &&& start < page + 4096
    &&& page < start + h.memory_size
}

/// Whether a segment is touched, written or run as is asked.
pub open spec fn serves(h: ProgramHeader, write: bool, run: bool) -> bool {
    (write ==> process::can_write(h)) && (run ==> process::can_run(h))
}

/// Whether one of the first `n` segments, or the next as far as `upto`, has
/// bytes in a page, and is written or run as is asked.
pub open spec fn reached(
    headers: Seq<ProgramHeader>,
    base: u64,
    n: int,
    upto: int,
    page: int,
    write: bool,
    run: bool,
) -> bool {
    ||| exists|j: int|
        0 <= j < n && j < headers.len() && #[trigger] touches(headers[j], base, page) && serves(
            headers[j],
            write,
            run,
        )
    ||| 0 <= n < headers.len() && touches(headers[n], base, page) && page < upto && serves(
        headers[n],
        write,
        run,
    )
}

/// Whether a plan has each page that was reached so far once, and no other,
/// with the flags of all segments that have bytes in it.
pub open spec fn describes(
    plans: Seq<PagePlan>,
    headers: Seq<ProgramHeader>,
    base: u64,
    n: int,
    upto: int,
) -> bool {
    &&& forall|a: int, b: int|
        0 <= a < b < plans.len() ==> (#[trigger] plans[a]).virtual_address != (
        #[trigger] plans[b]).virtual_address
    &&& forall|k: int|
        0 <= k < plans.len() ==> plan_right(#[trigger] plans[k], headers, base, n, upto)
    &&& forall|page: int| #[trigger]
        reached(headers, base, n, upto, page, false, false) ==> has_plan(plans, page)
}

pub open spec fn plan_right(
    plan: PagePlan,
    headers: Seq<ProgramHeader>,
    base: u64,
    n: int,
    upto: int,
) -> bool {
    let page = plan.virtual_address as int;
    let writable = reached(headers, base, n, upto, page, true, false);
    let executable = reached(headers, base, n, upto, page, false, true);
    &&& reached(headers, base, n, upto, page, false, false)
    &&& plan.executable == executable
    &&& plan.flags == page_flags(writable, executable)
}

pub open spec fn has_plan(plans: Seq<PagePlan>, page: int) -> bool {
    exists|k: int| 0 <= k < plans.len() && (#[trigger] plans[k]).virtual_address == page
}

proof fn lemma_flags_join(w1: bool, x1: bool, w2: bool, x2: bool)
    by (bit_vector)
    ensures
        (page_flags(w1, x1) | page_flags(w2, x2)) & !0x8000_0000_0000_0000u64 == page_flags(
            w1 || w2,
            true,
        ),
        (page_flags(w1, x1) | page_flags(w2, x2)) | 0x8000_0000_0000_0000u64 == page_flags(
            w1 || w2,
            false,
        ),
{
}

proof fn lemma_place(plans: Seq<PagePlan>, page: u64, i: int)
    requires
        0 <= i <= plans.len(),
    ensures
        ({
            let at = process::plan_index(plans, page, i);
            &&& i <= at <= plans.len()
            &&& at < plans.len() ==> plans[at].virtual_address == page
            &&& forall|k: int| i <= k < at ==> (#[trigger] plans[k]).virtual_address != page
        }),
    decreases plans.len() - i,
{
    if i < plans.len() && plans[i].virtual_address != page {
        lemma_place(plans, page, i + 1);
    }
}

/// What a page more of the next segment adds.
proof fn lemma_reached_more(
    headers: Seq<ProgramHeader>,
    base: u64,
    n: int,
    page: int,
    other: int,
    write: bool,
    run: bool,
)
    requires
        0 <= n < headers.len(),
        touches(headers[n], base, page),
    ensures
        reached(headers, base, n, page + 4096, other, write, run) <==> reached(
            headers,
            base,
            n,
            page,
            other,
            write,
            run,
        ) || (other == page && serves(headers[n], write, run)),
{
}

proof fn lemma_one_page(
    plans: Seq<PagePlan>,
    headers: Seq<ProgramHeader>,
    base: u64,
    n: int,
    page: int,
)
    requires
        0 <= n < headers.len(),
        describes(plans, headers, base, n, page),
        touches(headers[n], base, page),
        0 <= page <= u64::MAX,
    ensures
        describes(
            process::page_planned(
                plans,
                page as u64,
                process::segment_flags(headers[n]),
                process::can_run(headers[n]),
            ),
            headers,
            base,
            n,
            page + 4096,
        ),
{
    let h = headers[n];
    let flags = process::segment_flags(h);
    let run = process::can_run(h);
    let after = process::page_planned(plans, page as u64, flags, run);
    let at = process::plan_index(plans, page as u64, 0);
    lemma_place(plans, page as u64, 0);
    assert(flags == page_flags(process::can_write(h), run));
    assert forall|k: int| 0 <= k < after.len() implies plan_right(
        #[trigger] after[k],
        headers,
        base,
        n,
        page + 4096,
    ) by {
        let p = after[k].virtual_address as int;
        lemma_reached_more(headers, base, n, page, p, false, false);
        lemma_reached_more(headers, base, n, page, p, true, false);
        lemma_reached_more(headers, base, n, page, p, false, true);
        if k != at {
            assert(after[k] == plans[k]);
            assert(plan_right(plans[k], headers, base, n, page));
            if p == page {
                assert(k < at || at < plans.len());
            }
        } else if at < plans.len() {
            assert(plan_right(plans[at], headers, base, n, page));
            let w1 = reached(headers, base, n, page, page, true, false);
            let x1 = reached(headers, base, n, page, page, false, true);
            lemma_flags_join(w1, x1, process::can_write(h), run);
        } else {
            if reached(headers, base, n, page, page, false, false) {
                assert(has_plan(plans, page));
            }
            lemma_reached_any(headers, base, n, page, page);
        }
    }
    assert forall|a: int, b: int| 0 <= a < b < after.len() implies (
    #[trigger] after[a]).virtual_address != (#[trigger] after[b]).virtual_address by {
        if b < plans.len() {
            assert(plans[a].virtual_address != plans[b].virtual_address);
        }
    }
    assert forall|other: int| #[trigger]
        reached(headers, base, n, page + 4096, other, false, false) implies has_plan(
        after,
        other,
    ) by {
        lemma_reached_more(headers, base, n, page, other, false, false);
        if other == page {
            assert(after[at].virtual_address == page);
        } else {
            assert(has_plan(plans, other));
            let k = choose|k: int|
                0 <= k < plans.len() && (#[trigger] plans[k]).virtual_address == other;
            assert(after[k].virtual_address == other);
        }
    }
}

/// What is written or run is reached.
proof fn lemma_reached_any(headers: Seq<ProgramHeader>, base: u64, n: int, upto: int, page: int)
    ensures
        reached(headers, base, n, upto, page, true, false) ==> reached(
            headers,
            base,
            n,
            upto,
            page,
            false,
            false,
        ),
        reached(headers, base, n, upto, page, false, true) ==> reached(
            headers,
            base,
            n,
            upto,
            page,
            false,
            false,
        ),
{
}

proof fn lemma_one_segment(
    plans: Seq<PagePlan>,
    headers: Seq<ProgramHeader>,
    base: u64,
    n: int,
    page: int,
    end: int,
)
    requires
        0 <= n < headers.len(),
        process::is_load(headers[n]),
        headers[n].memory_size > 0,
        describes(plans, headers, base, n, page),
        page % 4096 == 0,
        ({
            let start = process::segment_start(headers[n], base);
            &&& start / 4096 * 4096 <= page <= end
            &&& end == (start + headers[n].memory_size + 4095) / 4096 * 4096
            &&& end <= u64::MAX
        }),
    ensures
        describes(
            process::pages_planned(
                plans,
                page,
                end,
                process::segment_flags(headers[n]),
                process::can_run(headers[n]),
            ),
            headers,
            base,
            n,
            end,
        ),
    decreases end - page,
{
    if page < end {
        let h = headers[n];
        let next = process::page_planned(
            plans,
            page as u64,
            process::segment_flags(h),
            process::can_run(h),
        );
        assert(touches(h, base, page));
        lemma_one_page(plans, headers, base, n, page);
        lemma_one_segment(next, headers, base, n, page + 4096, end);
    }
}

/// A plan of the first `n` segments and all of the next is one of `n + 1`.
proof fn lemma_next_segment(
    plans: Seq<PagePlan>,
    headers: Seq<ProgramHeader>,
    base: u64,
    n: int,
    upto: int,
    low: int,
)
    requires
        0 <= n < headers.len(),
        describes(plans, headers, base, n, upto),
        forall|page: int| #[trigger] touches(headers[n], base, page) ==> page < upto,
        forall|page: int|
            0 <= n + 1 < headers.len() && #[trigger] touches(headers[n + 1], base, page) ==> page
                >= low,
    ensures
        describes(plans, headers, base, n + 1, low),
{
    assert forall|page: int, write: bool, run: bool| #[trigger]
        reached(headers, base, n + 1, low, page, write, run) <==> reached(
            headers,
            base,
            n,
            upto,
            page,
            write,
            run,
        ) by {
        if reached(headers, base, n + 1, low, page, write, run) {
            if exists|j: int|
                0 <= j < n + 1 && j < headers.len() && #[trigger] touches(headers[j], base, page)
                    && serves(headers[j], write, run) {
                let j = choose|j: int|
                    0 <= j < n + 1 && j < headers.len() && #[trigger] touches(headers[j], base, page)
                        && serves(headers[j], write, run);
                if j < n {
                    assert(touches(headers[j], base, page));
                }
            }
        }
        if reached(headers, base, n, upto, page, write, run) {
            if touches(headers[n], base, page) && serves(headers[n], write, run) {
                assert(touches(headers[n], base, page));
            }
        }
    }
    assert forall|k: int| 0 <= k < plans.len() implies plan_right(
        #[trigger] plans[k],
        headers,
        base,
        n + 1,
        low,
    ) by {
        assert(plan_right(plans[k], headers, base, n, upto));
    }
}

proof fn lemma_segments(
    headers: Seq<ProgramHeader>,
    length: int,
    base: u64,
    n: int,
    plans: Seq<PagePlan>,
)
    requires
        0 <= n <= headers.len(),
        describes(plans, headers, base, n, first_page(headers, base, n)),
        process::segments_planned(headers, length, base, n, plans) is Ok,
    ensures
        describes(
            process::segments_planned(headers, length, base, n, plans)->Ok_0,
            headers,
            base,
            headers.len() as int,
            0,
        ),
    decreases headers.len() - n,
{
    if n < headers.len() {
        let h = headers[n];
        let start = process::segment_start(h, base);
        let low = first_page(headers, base, n + 1);
        if !process::is_load(h) {
            lemma_next_segment(plans, headers, base, n, first_page(headers, base, n), low);
            lemma_segments(headers, length, base, n + 1, plans);
        } else {
            let end = (start + h.memory_size + 4095) / 4096 * 4096;
            let first = (start / 4096 * 4096) as int;
            let next = process::segment_planned(plans, h, base);
            lemma_one_segment(plans, headers, base, n, first, end);
            lemma_next_segment(next, headers, base, n, end, low);
            lemma_segments(headers, length, base, n + 1, next);
        }
    }
}

/// Where the pages of a segment begin.
spec fn first_page(headers: Seq<ProgramHeader>, base: u64, n: int) -> int {
    if n < headers.len() {
        (process::segment_start(headers[n], base) / 4096 * 4096) as int
    } else {
        0
    }
}

/// Whether a segment of a program has bytes in a page, and is written or run as
/// is asked.
pub open spec fn is_needed(
    headers: Seq<ProgramHeader>,
    base: u64,
    page: int,
    write: bool,
    run: bool,
) -> bool {
    exists|j: int|
        0 <= j < headers.len() && #[trigger] touches(headers[j], base, page) && serves(
            headers[j],
            write,
            run,
        )
}

/// A program is planned to have the pages that its segments have bytes in, each
/// once, and no others. A page can be written, and run, if a segment with bytes
/// in it can.
pub proof fn law_pages_planned(file: Seq<u8>, base: u64, plans: Seq<PagePlan>, page: int, k: int)
    requires
        process::planned(file, base) == Ok::<Seq<PagePlan>, ProcessError>(plans),
    ensures
        forall|a: int, b: int|
            0 <= a < b < plans.len() ==> (#[trigger] plans[a]).virtual_address != (
            #[trigger] plans[b]).virtual_address,
        has_plan(plans, page) <==> is_needed(elf::headers(file), base, page, false, false),
        0 <= k < plans.len() ==> {
            let at = plans[k].virtual_address as int;
            let writable = is_needed(elf::headers(file), base, at, true, false);
            let executable = is_needed(elf::headers(file), base, at, false, true);
            plans[k].flags == page_flags(writable, executable) && plans[k].executable == executable
        },
{
    let headers = elf::headers(file);
    let none = Seq::<PagePlan>::empty();
    assert forall|p: int, write: bool, run: bool| #[trigger]
        reached(headers, base, headers.len() as int, 0, p, write, run) <==> is_needed(
            headers,
            base,
            p,
            write,
            run,
        ) by {
        if is_needed(headers, base, p, write, run) {
            let j = choose|j: int|
                0 <= j < headers.len() && #[trigger] touches(headers[j], base, p) && serves(
                    headers[j],
                    write,
                    run,
                );
            assert(j < headers.len() as int && touches(headers[j], base, p));
        }
    }
    lemma_segments(headers, file.len() as int, base, 0, none);
    if has_plan(plans, page) {
        let x = choose|x: int| 0 <= x < plans.len() && (#[trigger] plans[x]).virtual_address == page;
        assert(plan_right(plans[x], headers, base, headers.len() as int, 0));
    }
    if is_needed(headers, base, page, false, false) {
        assert(reached(headers, base, headers.len() as int, 0, page, false, false));
    }
    if 0 <= k < plans.len() {
        assert(plan_right(plans[k], headers, base, headers.len() as int, 0));
    }
}

} // verus!
