//! Page sizes of paginated answers.
use crate::errors::{invalid_argument, ErrorView, SubstrateError};
use vstd::prelude::*;

verus! {

/// The number of entries on a page: at least one, at most [`PageSize::MAX`].
#[derive(Debug, Clone, Copy)]
pub struct PageSize {
    entries: u32,
}

impl View for PageSize {
    type V = nat;

    closed spec fn view(&self) -> nat {
        self.entries as nat
    }
}

impl PageSize {
    /// The largest page.
    pub const MAX: u32 = 10_000;

    /// The page size where a request names none.
    pub const DEFAULT: u32 = 50;

    #[verifier::type_invariant]
    closed spec fn in_range(self) -> bool {
        1 <= self.entries <= PageSize::MAX
    }

    /// What a page size outside the range is answered with.
    pub open spec fn out_of_range() -> ErrorView {
        ErrorView::InvalidArgument {
            offending_field: "page_size"@,
            reason: "page_size must be between 1 and 10000"@,
            tagged: false,
        }
    }

    /// Accepts `n` as a page size: from one to [`PageSize::MAX`].
    pub fn try_from(n: u32) -> (r: Result<PageSize, SubstrateError>)
        ensures
            r is Ok <==> 1 <= n <= PageSize::MAX,
            r is Ok <==> 1 <= n <= 10_000,
            r matches Ok(p) ==> p@ == n,
            r matches Err(e) ==> e@ == PageSize::out_of_range(),
            r matches Err(e) ==> e@ == (ErrorView::InvalidArgument {
                offending_field: "page_size"@,
                reason: "page_size must be between 1 and 10000"@,
                tagged: false,
            }),
    {
        if 1 <= n && n <= PageSize::MAX {
            Ok(PageSize { entries: n })
        } else {
            Err(
                invalid_argument(
                    "page_size",
                    "page_size must be between 1 and 10000".to_owned(),
                    false,
                ),
            )
        }
    }

    /// The page size as a number.
    pub fn get(&self) -> (n: u32)
        ensures
            n == self@,
            1 <= n <= PageSize::MAX,
            n <= 10_000,
    {
        proof {
            use_type_invariant(self);
        }
        self.entries
    }
}

impl Default for PageSize {
    fn default() -> (r: PageSize)
        ensures
            r@ == PageSize::DEFAULT,
            r@ == 50,
    {
        PageSize { entries: PageSize::DEFAULT }
    }
}

/// The smaller of two numbers.
pub open spec fn smaller(a: u32, b: u32) -> u32 {
    if a < b {
        a
    } else {
        b
    }
}

/// The page size that a request gets, where it is granted one: `absent` where it
/// names none, and never more than `cap`.
pub open spec fn granted(requested: Option<u32>, absent: u32, cap: u32) -> Option<u32> {
    match requested {
        Some(n) => if 1 <= n <= PageSize::MAX {
            Some(smaller(n, cap))
        } else {
            None
        },
        None => Some(smaller(absent, cap)),
    }
}

/// Settles the page size of a request: an explicit size is checked against the
/// range of [`PageSize`], then cut down to `cap`.
pub fn grant(requested: Option<u32>, absent: u32, cap: u32) -> (r: Result<u32, SubstrateError>)
    ensures
        r is Ok <==> granted(requested, absent, cap) is Some,
        r matches Ok(n) ==> granted(requested, absent, cap) == Some(n),
        r matches Err(e) ==> e@ == PageSize::out_of_range(),
        r is Err <==> (requested matches Some(n) && (n == 0 || n > 10_000)),
        r matches Ok(n) ==> n <= cap,
        r matches Ok(n) ==> match requested {
            Some(k) => n == k || (n == cap && cap < k),
            None => n == absent || (n == cap && cap < absent),
        },
{
    let n: u32 = match requested {
        Some(n) => match PageSize::try_from(n) {
            Ok(p) => p.get(),
            Err(e) => {
                return Err(e);
            },
        },
        None => absent,
    };
    if n < cap {
        Ok(n)
    } else {
        Ok(cap)
    }
}

/// The page of a list that starts at `offset`: at most `size` entries.
pub open spec fn window<A>(all: Seq<A>, offset: int, size: int) -> Seq<A> {
    if offset >= all.len() {
        Seq::empty()
    } else if offset + size >= all.len() {
        all.skip(offset)
    } else {
        all.subrange(offset, offset + size)
    }
}

/// A request that names a page size from 1 to 10000 gets that size, or the cap where it is
/// smaller; one that names another is refused; one that names none gets what is usual, under
/// the same cap.
pub proof fn page_sizes_are_kept_or_capped(n: u32, absent: u32, cap: u32)
    ensures
        granted(Some(n), absent, cap) is Some <==> 1 <= n <= 10_000,
        1 <= n <= 10_000 && n <= cap ==> granted(Some(n), absent, cap) == Some(n),
        1 <= n <= 10_000 && n > cap ==> granted(Some(n), absent, cap) == Some(cap),
        absent <= cap ==> granted(None, absent, cap) == Some(absent),
        absent > cap ==> granted(None, absent, cap) == Some(cap),
{
}

/// A page holds the entries from its offset on, in their order, as many as there are up to
/// the page's size.
pub proof fn windows_hold_what_follows<A>(all: Seq<A>, offset: int, size: int, k: int)
    requires
        0 <= offset,
        0 <= size,
    ensures
        window(all, offset, size).len() <= size,
        window(all, offset, size).len() < size ==> offset >= all.len() || offset + window(
            all,
            offset,
            size,
        ).len() == all.len(),
        offset + size <= all.len() ==> window(all, offset, size).len() == size,
        0 <= k < size && offset + k < all.len() ==> k < window(all, offset, size).len() && window(
            all,
            offset,
            size,
        )[k] == all[offset + k],
{
}

/// The pages that a client gets who asks for one page after the other of an unchanged list,
/// from `offset` on, until there is none or `requests` requests were made.
pub open spec fn windows<A>(all: Seq<A>, offset: int, size: int, requests: nat) -> Seq<Seq<A>>
    decreases requests,
{
    if requests == 0 {
        Seq::empty()
    } else if offset + size < all.len() {
        seq![window(all, offset, size)] + windows(all, offset + size, size, (requests - 1) as nat)
    } else {
        seq![window(all, offset, size)]
    }
}

/// The pages of an unchanged list tile it: asking on comes to an end, the pages one after the
/// other are the list, every page but the last is full, and the last is not over-full.
pub proof fn windows_tile<A>(all: Seq<A>, offset: int, size: int, requests: nat)
    requires
        0 <= offset <= all.len(),
        0 < size,
        requests > all.len() - offset,
    ensures
        windows(all, offset, size, requests).flatten() == all.skip(offset),
        0 < windows(all, offset, size, requests).len(),
        forall|i: int|
            0 <= i < windows(all, offset, size, requests).len() - 1 ==> (#[trigger] windows(
                all,
                offset,
                size,
                requests,
            )[i]).len() == size,
        windows(all, offset, size, requests).last().len() <= size,
    decreases requests,
{
    let pages = windows(all, offset, size, requests);
    let page = window(all, offset, size);
    if offset + size < all.len() {
        let rest = windows(all, offset + size, size, (requests - 1) as nat);
        windows_tile(all, offset + size, size, (requests - 1) as nat);
        assert(pages == seq![page] + rest);
        assert(pages.first() == page);
        assert(pages.drop_first() =~= rest);
        assert(pages.flatten() == page + rest.flatten());
        assert(page + all.skip(offset + size) =~= all.skip(offset));
        assert(pages.last() == rest.last());
        assert forall|i: int| 0 <= i < pages.len() - 1 implies (#[trigger] pages[i]).len() == size by {
            if i > 0 {
                assert(pages[i] == rest[i - 1]);
            }
        }
    } else {
        assert(page =~= all.skip(offset));
        assert(pages =~= seq![page]);
        assert(pages.drop_first() =~= Seq::<Seq<A>>::empty());
        reveal_with_fuel(Seq::flatten, 2);
        assert(page + Seq::<A>::empty() =~= page);
        assert(pages.flatten() =~= page);
    }
}

} // verus!
