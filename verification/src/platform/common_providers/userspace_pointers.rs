//! Fallible access to guest memory.
//!
//! An address is validated before it is used, which may move it to where the host keeps the page,
//! and an access that faults all the same is validated and tried again for as long as the validator
//! thinks that worth it.
use crate::mm::addr::PAGE_SIZE;
use core::marker::PhantomData;
use vstd::prelude::*;

verus! {

/// An access that faulted.
#[derive(Clone, Copy, Debug, PartialEq, Eq, Structural)]
pub struct Fault;

/// How many times a validated access may fault before it is given up.
pub const ACCESS_FAULT_ATTEMPTS: u32 = 3;

/// Validates that a range is guest memory, and says at which host address it is accessed.
///
/// Succeeding does not guarantee that the range can be accessed, just that it is in the guest's
/// address range.
pub trait ValidateAccess: Sized {
    /// The host address of a value, or `None` if it may not be read.
    fn validate(addr: usize, size: usize) -> (host: Option<usize>);

    /// The host address of a slice, or `None` if it may not be read.
    fn validate_slice(addr: usize, size: usize) -> (host: Option<usize>);

    /// Like [`Self::validate`], but for an access that writes.
    fn validate_for_write(addr: usize, size: usize) -> (host: Option<usize>)
        default_ensures
            call_ensures(Self::validate, (addr, size), host),
    {
        Self::validate(addr, size)
    }

    /// Like [`Self::validate_slice`], but for an access that writes.
    fn validate_slice_for_write(addr: usize, size: usize) -> (host: Option<usize>)
        default_ensures
            call_ensures(Self::validate_slice, (addr, size), host),
    {
        Self::validate_slice(addr, size)
    }

    /// A counter read before an access, by which a fault can be attributed to something that
    /// changed in between.
    fn access_generation() -> (generation: u64)
        default_ensures
            generation == 0,
    {
        0
    }

    /// Whether an access that was validated and faulted all the same is to be validated and tried
    /// again. `attempt` counts its faults so far, from 1 on.
    fn retry_after_fault(_addr: usize, _size: usize, _write: bool, _attempt: u32, _generation: u64) -> (retry:
        bool)
        default_ensures
            !retry,
    {
        false
    }
}

/// A validator that lets everything through where it is.
pub struct NoValidation;

impl ValidateAccess for NoValidation {
    fn validate(addr: usize, _size: usize) -> (host: Option<usize>)
        ensures
            host == Some(addr),
    {
        Some(addr)
    }

    fn validate_slice(addr: usize, _size: usize) -> (host: Option<usize>)
        ensures
            host == Some(addr),
    {
        Some(addr)
    }
}

/// What is validated for an access: a value, or a slice.
#[derive(Clone, Copy, Debug, PartialEq, Eq, Structural)]
pub enum AccessKind {
    Value,
    Slice,
}

/// One access to guest memory.
#[derive(Clone, Copy, Debug, PartialEq, Eq, Structural)]
pub struct Access {
    pub kind: AccessKind,
    pub addr: usize,
    pub size: usize,
    pub write: bool,
}

/// The validator was asked for the host address of an access.
pub open spec fn validated<V: ValidateAccess>(access: Access, host: Option<usize>) -> bool {
    match (access.kind, access.write) {
        (AccessKind::Value, false) => call_ensures(V::validate, (access.addr, access.size), host),
        (AccessKind::Value, true) => call_ensures(
            V::validate_for_write,
            (access.addr, access.size),
            host,
        ),
        (AccessKind::Slice, false) => call_ensures(
            V::validate_slice,
            (access.addr, access.size),
            host,
        ),
        (AccessKind::Slice, true) => call_ensures(
            V::validate_slice_for_write,
            (access.addr, access.size),
            host,
        ),
    }
}

/// The validator was asked whether a fault is worth one more attempt.
pub open spec fn retry_answered<V: ValidateAccess>(
    access: Access,
    faults: u32,
    generation: u64,
    again: bool,
) -> bool {
    call_ensures(
        V::retry_after_fault,
        (access.addr, access.size, access.write, faults, generation),
        again,
    )
}

/// An access was validated and made, again after each fault that the validator thinks worth it;
/// `faults` of it have happened before. A counter of faults that cannot go on ends it.
#[verifier::opaque]
pub open spec fn retried<V: ValidateAccess, R, G: Fn(usize, usize, usize) -> Result<R, Fault>>(
    access: Access,
    perform: G,
    generation: u64,
    faults: u32,
    result: Option<R>,
) -> bool
    decreases u32::MAX - faults,
{
    exists|host: Option<usize>| #[trigger]
        validated::<V>(access, host) && match host {
            None => result is None,
            Some(host) => exists|answer: Result<R, Fault>| #[trigger]
                call_ensures(perform, (host, 0usize, access.size), answer) && match answer {
                    Ok(value) => result == Some(value),
                    Err(_) => if faults == u32::MAX {
                        result is None
                    } else {
                        exists|again: bool| #[trigger]
                            retry_answered::<V>(access, (faults + 1) as u32, generation, again)
                                && if again {
                                retried::<V, R, G>(
                                    access,
                                    perform,
                                    generation,
                                    (faults + 1) as u32,
                                    result,
                                )
                            } else {
                                result is None
                            }
                    },
                },
        }
}

/// An access was made as often as its validator thinks worth it, from the first try on.
pub open spec fn accessed<V: ValidateAccess, R, G: Fn(usize, usize, usize) -> Result<R, Fault>>(
    access: Access,
    perform: G,
    result: Option<R>,
) -> bool {
    exists|generation: u64| #[trigger]
        call_ensures(V::access_generation, (), generation) && retried::<V, R, G>(
            access,
            perform,
            generation,
            0,
            result,
        )
}

/// What an access gave came from a host address that the validator had approved for it.
pub proof fn lemma_access_only_where_validated<
    V: ValidateAccess,
    R,
    G: Fn(usize, usize, usize) -> Result<R, Fault>,
>(access: Access, perform: G, generation: u64, faults: u32, value: R)
    requires
        retried::<V, R, G>(access, perform, generation, faults, Some(value)),
    ensures
        exists|host: usize| #[trigger]
            validated::<V>(access, Some(host)) && call_ensures(
                perform,
                (host, 0usize, access.size),
                Ok::<R, Fault>(value),
            ),
    decreases u32::MAX - faults,
{
    reveal(retried);
    let host = choose|host: Option<usize>| #[trigger]
        validated::<V>(access, host) && match host {
            None => false,
            Some(host) => exists|answer: Result<R, Fault>| #[trigger]
                call_ensures(perform, (host, 0usize, access.size), answer) && match answer {
                    Ok(got) => Some(value) == Some(got),
                    Err(_) => if faults == u32::MAX {
                        false
                    } else {
                        exists|again: bool| #[trigger]
                            retry_answered::<V>(access, (faults + 1) as u32, generation, again)
                                && if again {
                                retried::<V, R, G>(
                                    access,
                                    perform,
                                    generation,
                                    (faults + 1) as u32,
                                    Some(value),
                                )
                            } else {
                                false
                            }
                    },
                },
        };
    let answer = choose|answer: Result<R, Fault>| #[trigger]
        call_ensures(perform, (host->0, 0usize, access.size), answer) && match answer {
            Ok(got) => Some(value) == Some(got),
            Err(_) => if faults == u32::MAX {
                false
            } else {
                exists|again: bool| #[trigger]
                    retry_answered::<V>(access, (faults + 1) as u32, generation, again) && if again {
                        retried::<V, R, G>(
                            access,
                            perform,
                            generation,
                            (faults + 1) as u32,
                            Some(value),
                        )
                    } else {
                        false
                    }
            },
        };
    if answer is Ok {
        assert(validated::<V>(access, Some(host->0)));
    } else {
        lemma_access_only_where_validated::<V, R, G>(
            access,
            perform,
            generation,
            (faults + 1) as u32,
            value,
        );
    }
}

/// Asks the validator for the host address of an access.
fn validate<V: ValidateAccess>(access: Access) -> (host: Option<usize>)
    ensures
        validated::<V>(access, host),
{
    match (access.kind, access.write) {
        (AccessKind::Value, false) => V::validate(access.addr, access.size),
        (AccessKind::Value, true) => V::validate_for_write(access.addr, access.size),
        (AccessKind::Slice, false) => V::validate_slice(access.addr, access.size),
        (AccessKind::Slice, true) => V::validate_slice_for_write(access.addr, access.size),
    }
}

/// Performs an access at the host address that the validator gives for it, validating again and
/// retrying whenever the validator says that a fault is worth one more attempt. `perform` receives
/// the host address, the byte offset inside the access, and the length.
pub fn access_with_retry<V: ValidateAccess, R, G: Fn(usize, usize, usize) -> Result<R, Fault>>(
    access: Access,
    perform: &G,
) -> (result: Option<R>)
    requires
        forall|host: usize, offset: usize, len: usize| #[trigger]
            call_requires(perform, (host, offset, len)),
    ensures
        accessed::<V, R, G>(access, *perform, result),
{
    let generation = V::access_generation();
    let ghost how = *perform;
    let mut faults: u32 = 0;
    loop
        invariant
            how == *perform,
            forall|host: usize, offset: usize, len: usize| #[trigger]
                call_requires(perform, (host, offset, len)),
            call_ensures(V::access_generation, (), generation),
            forall|result: Option<R>| #[trigger]
                retried::<V, R, G>(access, how, generation, faults, result) ==> retried::<V, R, G>(
                    access,
                    how,
                    generation,
                    0,
                    result,
                ),
        decreases u32::MAX - faults,
    {
        let ghost before = faults;
        let approved = validate::<V>(access);
        proof {
            assert(validated::<V>(access, approved));
        }
        let host = match approved {
            Some(host) => host,
            None => {
                proof {
                    reveal(retried);
                    assert(retried::<V, R, G>(access, how, generation, before, None));
                }
                return None;
            },
        };
        let answer = perform(host, 0, access.size);
        let ghost given = answer;
        proof {
            assert(call_ensures(how, (host, 0usize, access.size), given));
        }
        if let Ok(value) = answer {
            proof {
                reveal(retried);
                assert(retried::<V, R, G>(access, how, generation, before, Some(value)));
            }
            return Some(value);
        }
        if faults == u32::MAX {
            proof {
                reveal(retried);
                assert(retried::<V, R, G>(access, how, generation, before, None));
            }
            return None;
        }
        faults += 1;
        let again = V::retry_after_fault(
            access.addr,
            access.size,
            access.write,
            faults,
            generation,
        );
        proof {
            assert(retry_answered::<V>(access, (before + 1) as u32, generation, again));
        }
        if !again {
            proof {
                reveal(retried);
                assert(retried::<V, R, G>(access, how, generation, before, None));
            }
            return None;
        }
        proof {
            assert forall|result: Option<R>| #[trigger]
                retried::<V, R, G>(access, how, generation, faults, result) implies retried::<V, R, G>(
                access,
                how,
                generation,
                0,
                result,
            ) by {
                reveal(retried);
                assert(retried::<V, R, G>(access, how, generation, before, result));
            }
        }
    }
}

/// The address of an element, so many elements of a size above another. There is none below.
pub open spec fn element_address(addr: usize, count: isize, size: usize) -> Option<usize> {
    if count < 0 {
        None
    } else {
        Some(addr.wrapping_add((count as usize).wrapping_mul(size)))
    }
}

/// The address of an element.
pub fn element_at(addr: usize, count: isize, size: usize) -> (element: Option<usize>)
    ensures
        element == element_address(addr, count, size),
{
    if count < 0 {
        return None;
    }
    let index: usize = count as usize;
    Some(addr.wrapping_add(index.wrapping_mul(size)))
}

/// A range was accessed as a slice, in one run.
pub open spec fn ran<V: ValidateAccess, R, G: Fn(usize, usize, usize) -> Result<R, Fault>>(
    addr: usize,
    size: usize,
    write: bool,
    perform: G,
    result: Option<R>,
) -> bool {
    accessed::<V, R, G>(
        Access { kind: AccessKind::Slice, addr, size, write },
        perform,
        result,
    )
}

/// Runs one bulk access as a single host-contiguous run.
pub fn access_runs<V: ValidateAccess, R, G: Fn(usize, usize, usize) -> Result<R, Fault>>(
    addr: usize,
    size: usize,
    write: bool,
    perform: &G,
) -> (result: Option<R>)
    requires
        forall|host: usize, offset: usize, len: usize| #[trigger]
            call_requires(perform, (host, offset, len)),
    ensures
        ran::<V, R, G>(addr, size, write, *perform, result),
{
    access_with_retry::<V, R, G>(Access { kind: AccessKind::Slice, addr, size, write }, perform)
}

/// A value was accessed: as one value, and if that fails, as the bytes of a slice, which a validator
/// may approve where the value straddles pages that the host keeps apart.
pub open spec fn value_accessed<V: ValidateAccess, R, G: Fn(usize, usize, usize) -> Result<R, Fault>>(
    addr: usize,
    size: usize,
    write: bool,
    perform: G,
    result: Option<R>,
) -> bool {
    exists|fast: Option<R>| #[trigger]
        accessed::<V, R, G>(
            Access { kind: AccessKind::Value, addr, size, write },
            perform,
            fast,
        ) && if fast is Some || size <= 1 {
            result == fast
        } else {
            ran::<V, R, G>(addr, size, write, perform, result)
        }
}

/// Accesses one value.
fn access_value<V: ValidateAccess, R, G: Fn(usize, usize, usize) -> Result<R, Fault>>(
    addr: usize,
    size: usize,
    write: bool,
    perform: &G,
) -> (result: Option<R>)
    requires
        forall|host: usize, offset: usize, len: usize| #[trigger]
            call_requires(perform, (host, offset, len)),
    ensures
        value_accessed::<V, R, G>(addr, size, write, *perform, result),
{
    let access = Access { kind: AccessKind::Value, addr, size, write };
    let fast = access_with_retry::<V, R, G>(access, perform);
    let ghost given = fast;
    proof {
        assert(accessed::<V, R, G>(access, *perform, given));
    }
    if fast.is_some() || size <= 1 {
        return fast;
    }
    access_runs::<V, R, G>(addr, size, write, perform)
}

/// Reads the element of a size that is so many elements above an address.
pub fn read_at_offset<V: ValidateAccess, R, G: Fn(usize, usize, usize) -> Result<R, Fault>>(
    addr: usize,
    count: isize,
    size: usize,
    perform: &G,
) -> (result: Option<R>)
    requires
        forall|host: usize, offset: usize, len: usize| #[trigger]
            call_requires(perform, (host, offset, len)),
    ensures
        match element_address(addr, count, size) {
            Some(element) => value_accessed::<V, R, G>(element, size, false, *perform, result),
            None => result is None,
        },
{
    match element_at(addr, count, size) {
        Some(element) => access_value::<V, R, G>(element, size, false, perform),
        None => None,
    }
}

/// Writes the element of a size that is so many elements above an address.
pub fn write_at_offset<V: ValidateAccess, R, G: Fn(usize, usize, usize) -> Result<R, Fault>>(
    addr: usize,
    count: isize,
    size: usize,
    perform: &G,
) -> (result: Option<R>)
    requires
        forall|host: usize, offset: usize, len: usize| #[trigger]
            call_requires(perform, (host, offset, len)),
    ensures
        match element_address(addr, count, size) {
            Some(element) => value_accessed::<V, R, G>(element, size, true, *perform, result),
            None => result is None,
        },
{
    match element_at(addr, count, size) {
        Some(element) => access_value::<V, R, G>(element, size, true, perform),
        None => None,
    }
}

/// Compares and exchanges the word at an address. A null or unaligned address is refused.
pub fn compare_exchange_u32<
    V: ValidateAccess,
    R,
    G: Fn(usize, usize, usize) -> Result<R, Fault>,
>(addr: usize, perform: &G) -> (result: Option<R>)
    requires
        forall|host: usize, offset: usize, len: usize| #[trigger]
            call_requires(perform, (host, offset, len)),
    ensures
        if addr == 0 || addr % 4 != 0 {
            result is None
        } else {
            accessed::<V, R, G>(
                (Access { kind: AccessKind::Value, addr, size: 4, write: true }),
                *perform,
                result,
            )
        },
{
    if addr == 0 || addr % 4 != 0 {
        return None;
    }
    access_with_retry::<V, R, G>(
        Access { kind: AccessKind::Value, addr, size: 4, write: true },
        perform,
    )
}

/// Copies a slice of elements out of guest memory. An empty slice needs no access.
pub fn to_owned_slice<V: ValidateAccess, G: Fn(usize, usize, usize) -> Result<Vec<u8>, Fault>>(
    addr: usize,
    len: usize,
    size: usize,
    perform: &G,
) -> (result: Option<Vec<u8>>)
    requires
        len * size <= usize::MAX,
        forall|host: usize, offset: usize, count: usize| #[trigger]
            call_requires(perform, (host, offset, count)),
    ensures
        if len == 0 {
            result matches Some(bytes) && bytes@ == Seq::<u8>::empty()
        } else {
            ran::<V, Vec<u8>, G>(addr, (len * size) as usize, false, *perform, result)
        },
{
    if len == 0 {
        return Some(Vec::new());
    }
    access_runs::<V, Vec<u8>, G>(addr, len * size, false, perform)
}

/// Copies a slice of elements into guest memory, so many elements above an address. An empty slice
/// needs no access.
pub fn copy_from_slice<V: ValidateAccess, G: Fn(usize, usize, usize) -> Result<(), Fault>>(
    addr: usize,
    start_offset: usize,
    len: usize,
    size: usize,
    perform: &G,
) -> (result: Option<()>)
    requires
        len * size <= usize::MAX,
        forall|host: usize, offset: usize, count: usize| #[trigger]
            call_requires(perform, (host, offset, count)),
    ensures
        if len == 0 {
            result is Some
        } else {
            ran::<V, (), G>(
                addr.wrapping_add(start_offset.wrapping_mul(size)),
                (len * size) as usize,
                true,
                *perform,
                result,
            )
        },
{
    if len == 0 {
        return Some(());
    }
    let dst: usize = addr.wrapping_add(start_offset.wrapping_mul(size));
    access_runs::<V, (), G>(dst, len * size, true, perform)
}

/// The bytes up to and with the first NUL, if there is one.
pub open spec fn up_to_nul(bytes: Seq<u8>) -> Option<Seq<u8>>
    decreases bytes.len(),
{
    if bytes.len() == 0 {
        None
    } else if bytes[0] == 0 {
        Some(seq![0u8])
    } else {
        match up_to_nul(bytes.drop_first()) {
            Some(rest) => Some(seq![bytes[0]] + rest),
            None => None,
        }
    }
}

/// A string with its end: the last byte is NUL, and no other is.
pub open spec fn is_terminated(bytes: Seq<u8>) -> bool {
    &&& bytes.len() > 0
    &&& bytes.last() == 0
    &&& forall|i: int| 0 <= i < bytes.len() - 1 ==> bytes[i] != 0
}

/// The bytes of a range were read one by one, until a NUL or one that cannot be read: `None` in the
/// latter case, else what was read.
#[verifier::opaque]
pub open spec fn scanned<B: Fn(usize) -> Option<u8>>(
    byte: B,
    cursor: usize,
    end: usize,
    result: Option<Seq<u8>>,
) -> bool
    decreases end - cursor,
{
    if cursor >= end {
        result == Some(Seq::<u8>::empty())
    } else {
        exists|answer: Option<u8>| #[trigger]
            call_ensures(byte, (cursor,), answer) && match answer {
                None => result is None,
                Some(0) => result == Some(seq![0u8]),
                Some(value) => match result {
                    None => scanned(byte, (cursor + 1) as usize, end, None),
                    Some(bytes) => bytes.len() > 0 && bytes[0] == value && scanned(
                        byte,
                        (cursor + 1) as usize,
                        end,
                        Some(bytes.drop_first()),
                    ),
                },
            }
    }
}

/// Bytes before what came after them, if anything did.
pub open spec fn prepended(head: Seq<u8>, rest: Option<Seq<u8>>) -> Option<Seq<u8>> {
    match rest {
        Some(rest) => Some(head + rest),
        None => None,
    }
}

/// The rest of a page was read: in one go, up to and with a NUL if there is one, or byte by byte
/// where that fails.
pub open spec fn page_read<A: Fn(usize, usize) -> Option<Vec<u8>>, B: Fn(usize) -> Option<u8>>(
    bulk: A,
    byte: B,
    cursor: usize,
    end: usize,
    piece: Option<Seq<u8>>,
) -> bool {
    exists|answer: Option<Vec<u8>>| #[trigger]
        call_ensures(bulk, (cursor, (end - cursor) as usize), answer) && match answer {
            Some(bytes) => piece == Some(
                match up_to_nul(bytes@) {
                    Some(head) => head,
                    None => bytes@,
                },
            ),
            None => scanned(byte, cursor, end, piece),
        }
}

/// The end of the page that an address is on.
pub open spec fn page_end(cursor: usize) -> int {
    cursor - cursor % PAGE_SIZE + PAGE_SIZE
}

/// A string was read page by page, up to and with its NUL. It must not reach the end of the address
/// space.
#[verifier::opaque]
pub open spec fn cstring_read<A: Fn(usize, usize) -> Option<Vec<u8>>, B: Fn(usize) -> Option<u8>>(
    bulk: A,
    byte: B,
    cursor: usize,
    result: Option<Seq<u8>>,
) -> bool
    decreases usize::MAX - cursor,
{
    if page_end(cursor) > usize::MAX {
        result is None
    } else {
        let end = page_end(cursor) as usize;
        exists|piece: Option<Seq<u8>>| #[trigger]
            page_read(bulk, byte, cursor, end, piece) && match piece {
                None => result is None,
                Some(piece) => if piece.len() > 0 && piece.last() == 0 {
                    result == Some(piece)
                } else {
                    match result {
                        None => cstring_read(bulk, byte, end, None),
                        Some(bytes) => piece.is_prefix_of(bytes) && cstring_read(
                            bulk,
                            byte,
                            end,
                            Some(bytes.skip(piece.len() as int)),
                        ),
                    }
                },
            }
    }
}

/// Finds the first NUL.
fn find_nul(bytes: &Vec<u8>) -> (found: Option<usize>)
    ensures
        match found {
            Some(at) => at < bytes@.len() && bytes@[at as int] == 0 && forall|i: int|
                0 <= i < at ==> bytes@[i] != 0,
            None => forall|i: int| 0 <= i < bytes@.len() ==> bytes@[i] != 0,
        },
{
    let mut i: usize = 0;
    while i < bytes.len()
        invariant
            i <= bytes@.len(),
            forall|j: int| 0 <= j < i ==> bytes@[j] != 0,
        decreases bytes@.len() - i,
    {
        if bytes[i] == 0 {
            return Some(i);
        }
        i += 1;
    }
    None
}

/// Where the first NUL is says what is up to it.
proof fn lemma_up_to_nul(bytes: Seq<u8>, at: int)
    requires
        0 <= at <= bytes.len(),
        forall|i: int| 0 <= i < at ==> bytes[i] != 0,
        at < bytes.len() ==> bytes[at] == 0,
    ensures
        up_to_nul(bytes) == (if at < bytes.len() {
            Some(bytes.take(at + 1))
        } else {
            None
        }),
    decreases bytes.len(),
{
    if bytes.len() > 0 && at > 0 {
        let rest = bytes.drop_first();
        lemma_up_to_nul(rest, at - 1);
        if at < bytes.len() {
            assert(seq![bytes[0]] + rest.take(at) =~= bytes.take(at + 1));
        }
    } else if bytes.len() > 0 {
        assert(seq![0u8] =~= bytes.take(1));
    }
}

/// Adds bytes.
fn put_bytes(out: &mut Vec<u8>, bytes: &Vec<u8>, count: usize)
    requires
        count <= bytes@.len(),
    ensures
        final(out)@ == old(out)@ + bytes@.take(count as int),
{
    let mut i: usize = 0;
    proof {
        assert(out@ =~= old(out)@ + bytes@.take(0));
    }
    while i < count
        invariant
            i <= count <= bytes@.len(),
            out@ == old(out)@ + bytes@.take(i as int),
        decreases count - i,
    {
        out.push(bytes[i]);
        proof {
            assert(out@ =~= old(out)@ + bytes@.take(i + 1));
        }
        i += 1;
    }
}

/// Reads the bytes of a range one by one, until a NUL.
fn scan_bytes<B: Fn(usize) -> Option<u8>>(byte: &B, start: usize, end: usize) -> (result: Option<
    Vec<u8>,
>)
    requires
        forall|addr: usize| #[trigger] call_requires(byte, (addr,)),
    ensures
        match result {
            Some(bytes) => {
                &&& scanned(*byte, start, end, Some(bytes@))
                &&& is_terminated(bytes@) || forall|i: int|
                    0 <= i < bytes@.len() ==> bytes@[i] != 0
            },
            None => scanned(*byte, start, end, None),
        },
{
    let ghost how = *byte;
    let mut out: Vec<u8> = Vec::new();
    let mut cursor: usize = start;
    proof {
        assert forall|rest: Option<Seq<u8>>| #[trigger]
            scanned(how, start, end, rest) implies scanned(how, start, end, prepended(out@, rest)) by {
            if let Some(bytes) = rest {
                assert(out@ + bytes =~= bytes);
            }
        }
    }
    while cursor < end
        invariant
            how == *byte,
            forall|addr: usize| #[trigger] call_requires(byte, (addr,)),
            forall|i: int| 0 <= i < out@.len() ==> out@[i] != 0,
            forall|rest: Option<Seq<u8>>| #[trigger]
                scanned(how, cursor, end, rest) ==> scanned(
                    how,
                    start,
                    end,
                    prepended(out@, rest),
                ),
        decreases end - cursor,
    {
        let ghost here = cursor;
        let ghost before = out@;
        let answer = byte(cursor);
        proof {
            assert(call_ensures(how, (here,), answer));
        }
        let value = match answer {
            Some(value) => value,
            None => {
                proof {
                    reveal(scanned);
                    assert(scanned(how, here, end, None));
                }
                return None;
            },
        };
        out.push(value);
        if value == 0 {
            proof {
                reveal(scanned);
                assert(scanned(how, here, end, Some(seq![0u8])));
                assert(before + seq![0u8] =~= out@);
            }
            return Some(out);
        }
        cursor += 1;
        proof {
            assert forall|rest: Option<Seq<u8>>| #[trigger]
                scanned(how, cursor, end, rest) implies scanned(
                how,
                start,
                end,
                prepended(out@, rest),
            ) by {
                reveal(scanned);
                let longer = prepended(seq![value], rest);
                if let Some(bytes) = rest {
                    assert((seq![value] + bytes).drop_first() =~= bytes);
                }
                assert(scanned(how, here, end, longer));
                if let Some(bytes) = rest {
                    assert(before + (seq![value] + bytes) =~= out@ + bytes);
                }
            }
        }
    }
    proof {
        reveal(scanned);
        assert(scanned(how, cursor, end, Some(Seq::<u8>::empty())));
        assert(out@ + Seq::<u8>::empty() =~= out@);
    }
    Some(out)
}

/// Reads a string, with its NUL, one access for each page instead of one for each byte. A page that
/// cannot be read in one go is read byte by byte, so that the result is the one of reading all of
/// it byte by byte.
pub fn to_cstring_paged<A: Fn(usize, usize) -> Option<Vec<u8>>, B: Fn(usize) -> Option<u8>>(
    addr: usize,
    bulk: &A,
    byte: &B,
) -> (result: Option<Vec<u8>>)
    requires
        forall|at: usize, len: usize| #[trigger] call_requires(bulk, (at, len)),
        forall|at: usize| #[trigger] call_requires(byte, (at,)),
    ensures
        match result {
            Some(bytes) => cstring_read(*bulk, *byte, addr, Some(bytes@)) && is_terminated(bytes@),
            None => cstring_read(*bulk, *byte, addr, None),
        },
{
    let ghost many = *bulk;
    let ghost one = *byte;
    let mut out: Vec<u8> = Vec::new();
    let mut cursor: usize = addr;
    proof {
        assert forall|rest: Option<Seq<u8>>| #[trigger]
            cstring_read(many, one, addr, rest) implies cstring_read(
            many,
            one,
            addr,
            prepended(out@, rest),
        ) by {
            if let Some(bytes) = rest {
                assert(out@ + bytes =~= bytes);
            }
        }
    }
    loop
        invariant
            many == *bulk,
            one == *byte,
            forall|at: usize, len: usize| #[trigger] call_requires(bulk, (at, len)),
            forall|at: usize| #[trigger] call_requires(byte, (at,)),
            forall|i: int| 0 <= i < out@.len() ==> out@[i] != 0,
            forall|rest: Option<Seq<u8>>| #[trigger]
                cstring_read(many, one, cursor, rest) ==> cstring_read(
                    many,
                    one,
                    addr,
                    prepended(out@, rest),
                ),
        decreases usize::MAX - cursor,
    {
        let ghost here = cursor;
        let ghost before = out@;
        let end = match (cursor - cursor % PAGE_SIZE).checked_add(PAGE_SIZE) {
            Some(end) => end,
            None => {
                proof {
                    reveal(cstring_read);
                    assert(cstring_read(many, one, here, None));
                }
                return None;
            },
        };
        let answer = bulk(cursor, end - cursor);
        let ghost given = answer;
        proof {
            assert(call_ensures(many, (here, (end - here) as usize), given));
        }
        let piece: Vec<u8> = match answer {
            Some(bytes) => {
                let mut piece: Vec<u8> = Vec::new();
                let total: usize = bytes.len();
                match find_nul(&bytes) {
                    Some(at) => {
                        put_bytes(&mut piece, &bytes, at + 1);
                        proof {
                            lemma_up_to_nul(bytes@, at as int);
                            assert(piece@ =~= bytes@.take(at + 1));
                        }
                    },
                    None => {
                        put_bytes(&mut piece, &bytes, total);
                        proof {
                            lemma_up_to_nul(bytes@, bytes@.len() as int);
                            assert(piece@ =~= bytes@);
                        }
                    },
                }
                piece
            },
            None => match scan_bytes(byte, cursor, end) {
                Some(piece) => piece,
                None => {
                    proof {
                        reveal(cstring_read);
                        assert(page_read(many, one, here, end, None));
                        assert(cstring_read(many, one, here, None));
                    }
                    return None;
                },
            },
        };
        proof {
            assert(page_read(many, one, here, end, Some(piece@)));
            assert(is_terminated(piece@) || forall|i: int|
                0 <= i < piece@.len() ==> piece@[i] != 0);
        }
        let n: usize = piece.len();
        put_bytes(&mut out, &piece, n);
        proof {
            assert(piece@.take(n as int) =~= piece@);
        }
        if n > 0 && piece[n - 1] == 0 {
            proof {
                reveal(cstring_read);
                assert(cstring_read(many, one, here, Some(piece@)));
                assert(prepended(before, Some(piece@)) == Some(out@));
            }
            return Some(out);
        }
        cursor = end;
        proof {
            assert forall|rest: Option<Seq<u8>>| #[trigger]
                cstring_read(many, one, cursor, rest) implies cstring_read(
                many,
                one,
                addr,
                prepended(out@, rest),
            ) by {
                reveal(cstring_read);
                let longer = prepended(piece@, rest);
                if let Some(bytes) = rest {
                    assert((piece@ + bytes).skip(n as int) =~= bytes);
                    assert(piece@.is_prefix_of(piece@ + bytes)) by {
                        assert((piece@ + bytes).take(n as int) =~= piece@);
                    }
                }
                assert(page_read(many, one, here, end, Some(piece@)));
                assert(cstring_read(many, one, here, longer));
                if let Some(bytes) = rest {
                    assert(before + (piece@ + bytes) =~= out@ + bytes);
                }
            }
        }
    }
}

/// An access fails only where it was refused or faulted: if the validator approves it whenever it is asked,
/// and no attempt faults, it succeeds.
pub proof fn lemma_access_fails_only_for_a_reason<
    V: ValidateAccess,
    R,
    G: Fn(usize, usize, usize) -> Result<R, Fault>,
>(access: Access, perform: G, generation: u64, faults: u32, result: Option<R>)
    requires
        retried::<V, R, G>(access, perform, generation, faults, result),
        forall|host: Option<usize>| #[trigger] validated::<V>(access, host) ==> host is Some,
        forall|host: usize, answer: Result<R, Fault>| #[trigger]
            call_ensures(perform, (host, 0usize, access.size), answer) ==> answer is Ok,
    ensures
        result is Some,
{
    reveal(retried);
}

/// A value is only ever accessed where the validator approved the very range, as a value or as a slice, and
/// for the same direction. It is got by one of the two ways if that way is approved and never faults;
/// a value of one byte, which cannot straddle pages, only by the first.
pub proof fn lemma_value_is_got_either_way<
    V: ValidateAccess,
    R,
    G: Fn(usize, usize, usize) -> Result<R, Fault>,
>(addr: usize, size: usize, write: bool, perform: G, result: Option<R>)
    requires
        value_accessed::<V, R, G>(addr, size, write, perform, result),
    ensures
        result matches Some(value) ==> exists|kind: AccessKind, host: usize|
            #![trigger validated::<V>((Access { kind, addr, size, write }), Some(host))]
            {
                &&& validated::<V>((Access { kind, addr, size, write }), Some(host))
                &&& call_ensures(perform, (host, 0usize, size), Ok::<R, Fault>(value))
                &&& kind is Slice ==> size > 1
            },
        (forall|host: usize, answer: Result<R, Fault>| #[trigger]
            call_ensures(perform, (host, 0usize, size), answer) ==> answer is Ok) && ((forall|
            host: Option<usize>,
        | #[trigger]
            validated::<V>((Access { kind: AccessKind::Value, addr, size, write }), host) ==> host is Some)
            || size > 1 && (forall|host: Option<usize>| #[trigger]
            validated::<V>((Access { kind: AccessKind::Slice, addr, size, write }), host) ==> host is Some))
            ==> result is Some,
{
    let value = Access { kind: AccessKind::Value, addr, size, write };
    let slice = Access { kind: AccessKind::Slice, addr, size, write };
    let fast = choose|fast: Option<R>| #[trigger]
        accessed::<V, R, G>(value, perform, fast) && if fast is Some || size <= 1 {
            result == fast
        } else {
            ran::<V, R, G>(addr, size, write, perform, result)
        };
    let generation = choose|generation: u64| #[trigger]
        call_ensures(V::access_generation, (), generation) && retried::<V, R, G>(
            value,
            perform,
            generation,
            0,
            fast,
        );
    let by_slice = !(fast is Some || size <= 1);
    if by_slice {
        let later = choose|generation: u64| #[trigger]
            call_ensures(V::access_generation, (), generation) && retried::<V, R, G>(
                slice,
                perform,
                generation,
                0,
                result,
            );
        if let Some(got) = result {
            lemma_access_only_where_validated::<V, R, G>(slice, perform, later, 0, got);
        }
        if (forall|host: usize, answer: Result<R, Fault>| #[trigger]
            call_ensures(perform, (host, 0usize, size), answer) ==> answer is Ok) && (forall|
            host: Option<usize>,
        | #[trigger] validated::<V>(slice, host) ==> host is Some) {
            lemma_access_fails_only_for_a_reason::<V, R, G>(slice, perform, later, 0, result);
        }
    } else if let Some(got) = result {
        lemma_access_only_where_validated::<V, R, G>(value, perform, generation, 0, got);
    }
    if (forall|host: usize, answer: Result<R, Fault>| #[trigger]
        call_ensures(perform, (host, 0usize, size), answer) ==> answer is Ok) && (forall|
        host: Option<usize>,
    | #[trigger] validated::<V>(value, host) ==> host is Some) {
        lemma_access_fails_only_for_a_reason::<V, R, G>(value, perform, generation, 0, fast);
    }
}

/// Elements lie one after another from the address on, as far as the address space goes, and none lies
/// below it.
pub proof fn lemma_elements_are_in_a_row(addr: usize, count: isize, size: usize)
    ensures
        count < 0 <==> element_address(addr, count, size) is None,
        element_address(addr, 0, size) == Some(addr),
        count >= 0 && addr + count * size <= usize::MAX ==> element_address(addr, count, size) == Some(
            (addr + count * size) as usize,
        ),
{
    assert(0 * size == 0) by (nonlinear_arith);
    if count >= 0 {
        assert(0 <= count * size) by (nonlinear_arith)
            requires
                count >= 0,
        ;
    }
}

/// What is cut off at the first NUL begins the bytes, ends with a NUL and holds no other; there is nothing
/// to cut off exactly if there is no NUL.
pub proof fn lemma_cut_at_the_first_nul(bytes: Seq<u8>)
    ensures
        up_to_nul(bytes) matches Some(head) ==> {
            &&& 0 < head.len() <= bytes.len()
            &&& forall|i: int| 0 <= i < head.len() ==> #[trigger] head[i] == bytes[i]
            &&& forall|i: int| 0 <= i < head.len() ==> (#[trigger] head[i] == 0 <==> i == head.len() - 1)
        },
        up_to_nul(bytes) is None <==> !bytes.contains(0),
    decreases bytes.len(),
{
    if bytes.len() > 0 {
        let rest = bytes.drop_first();
        lemma_cut_at_the_first_nul(rest);
        if bytes[0] != 0 {
            if bytes.contains(0) {
                let i = bytes.index_of(0);
                assert(rest[i - 1] == 0);
            }
            if rest.contains(0) {
                let i = rest.index_of(0);
                assert(bytes[i + 1] == 0);
            }
            if let Some(tail) = up_to_nul(rest) {
                let head = seq![bytes[0]] + tail;
                assert forall|i: int| 0 <= i < head.len() implies #[trigger] head[i] == bytes[i] && (head[i]
                    == 0 <==> i == head.len() - 1) by {
                    if i > 0 {
                        assert(head[i] == tail[i - 1]);
                        assert(tail[i - 1] == rest[i - 1]);
                    }
                }
            }
        } else {
            assert(bytes[0] == 0u8);
        }
    }
}

/// Readers that give what memory holds, wherever they give anything.
pub open spec fn reads_memory<A: Fn(usize, usize) -> Option<Vec<u8>>, B: Fn(usize) -> Option<u8>>(
    bulk: A,
    byte: B,
    memory: spec_fn(int) -> u8,
) -> bool {
    &&& forall|at: usize, len: usize, answer: Option<Vec<u8>>| #[trigger]
        call_ensures(bulk, (at, len), answer) ==> (answer matches Some(bytes) ==> bytes@.len() == len
            && holds(memory, at as int, bytes@))
    &&& forall|at: usize, answer: Option<u8>| #[trigger]
        call_ensures(byte, (at,), answer) ==> (answer matches Some(value) ==> value == memory(at as int))
}

/// Memory holds these bytes from an address on.
pub open spec fn holds(memory: spec_fn(int) -> u8, at: int, bytes: Seq<u8>) -> bool {
    forall|i: int| 0 <= i < bytes.len() ==> #[trigger] bytes[i] == memory(at + i)
}

/// What reading byte by byte gives is what memory holds: all of the range, or up to and with the first
/// NUL.
proof fn lemma_scan_is_faithful<A: Fn(usize, usize) -> Option<Vec<u8>>, B: Fn(usize) -> Option<u8>>(
    bulk: A,
    byte: B,
    memory: spec_fn(int) -> u8,
    cursor: usize,
    end: usize,
    bytes: Seq<u8>,
)
    requires
        reads_memory(bulk, byte, memory),
        cursor <= end,
        scanned(byte, cursor, end, Some(bytes)),
    ensures
        holds(memory, cursor as int, bytes),
        is_terminated(bytes) || bytes.len() == end - cursor && !bytes.contains(0),
    decreases end - cursor,
{
    reveal(scanned);
    if cursor < end {
        let answer = choose|answer: Option<u8>| #[trigger]
            call_ensures(byte, (cursor,), answer) && match answer {
                None => false,
                Some(0) => bytes == seq![0u8],
                Some(value) => bytes.len() > 0 && bytes[0] == value && scanned(
                    byte,
                    (cursor + 1) as usize,
                    end,
                    Some(bytes.drop_first()),
                ),
            };
        if answer != Some(0u8) {
            let rest = bytes.drop_first();
            lemma_scan_is_faithful(bulk, byte, memory, (cursor + 1) as usize, end, rest);
            assert forall|i: int| 0 <= i < bytes.len() implies #[trigger] bytes[i] == memory(cursor + i) by {
                if i > 0 {
                    assert(bytes[i] == rest[i - 1]);
                }
            }
            if is_terminated(rest) {
                assert(bytes.last() == rest.last());
                assert forall|i: int| 0 <= i < bytes.len() - 1 implies bytes[i] != 0 by {
                    if i > 0 {
                        assert(bytes[i] == rest[i - 1]);
                    }
                }
            } else if bytes.contains(0) {
                let i = bytes.index_of(0);
                assert(rest[i - 1] == 0);
            }
        }
    }
}

/// What reading the rest of a page gives is what memory holds: all of the rest, or up to and with the
/// first NUL.
proof fn lemma_page_is_faithful<A: Fn(usize, usize) -> Option<Vec<u8>>, B: Fn(usize) -> Option<u8>>(
    bulk: A,
    byte: B,
    memory: spec_fn(int) -> u8,
    cursor: usize,
    end: usize,
    piece: Seq<u8>,
)
    requires
        reads_memory(bulk, byte, memory),
        cursor < end,
        page_read(bulk, byte, cursor, end, Some(piece)),
    ensures
        holds(memory, cursor as int, piece),
        is_terminated(piece) || piece.len() == end - cursor && !piece.contains(0),
{
    let answer = choose|answer: Option<Vec<u8>>| #[trigger]
        call_ensures(bulk, (cursor, (end - cursor) as usize), answer) && match answer {
            Some(bytes) => Some(piece) == Some(
                match up_to_nul(bytes@) {
                    Some(head) => head,
                    None => bytes@,
                },
            ),
            None => scanned(byte, cursor, end, Some(piece)),
        };
    if let Some(bytes) = answer {
        lemma_cut_at_the_first_nul(bytes@);
        if up_to_nul(bytes@) is Some {
            assert(piece.last() == piece[piece.len() - 1]);
        }
    } else {
        lemma_scan_is_faithful(bulk, byte, memory, cursor, end, piece);
    }
}

/// A string that is read is what memory holds from its address on, up to and with the first NUL, however
/// its pages were read.
pub proof fn lemma_string_is_what_memory_holds<
    A: Fn(usize, usize) -> Option<Vec<u8>>,
    B: Fn(usize) -> Option<u8>,
>(bulk: A, byte: B, memory: spec_fn(int) -> u8, cursor: usize, bytes: Seq<u8>)
    requires
        reads_memory(bulk, byte, memory),
        cstring_read(bulk, byte, cursor, Some(bytes)),
    ensures
        bytes.len() > 0,
        forall|i: int| 0 <= i < bytes.len() ==> #[trigger] bytes[i] == memory(cursor + i),
        forall|i: int| 0 <= i < bytes.len() ==> (#[trigger] bytes[i] == 0 <==> i == bytes.len() - 1),
    decreases usize::MAX - cursor,
{
    reveal(cstring_read);
    let end = page_end(cursor) as usize;
    let piece = choose|piece: Seq<u8>|
        #![trigger page_read(bulk, byte, cursor, end, Some(piece))]
        page_read(bulk, byte, cursor, end, Some(piece)) && if piece.len() > 0 && piece.last() == 0 {
            bytes == piece
        } else {
            piece.is_prefix_of(bytes) && cstring_read(
                bulk,
                byte,
                end,
                Some(bytes.skip(piece.len() as int)),
            )
        };
    lemma_page_is_faithful(bulk, byte, memory, cursor, end, piece);
    if is_terminated(piece) {
        assert(piece.last() == 0);
        assert(piece.last() == piece[piece.len() - 1]);
    } else {
        if piece.len() > 0 && piece.last() == 0 {
            assert(piece.contains(piece[piece.len() - 1]));
        }
        let n = piece.len() as int;
        let rest = bytes.skip(n);
        lemma_string_is_what_memory_holds(bulk, byte, memory, end, rest);
        assert forall|i: int| 0 <= i < bytes.len() implies #[trigger] bytes[i] == memory(cursor + i) && (
        bytes[i] == 0 <==> i == bytes.len() - 1) by {
            if i < n {
                assert(piece[i] == bytes.take(n)[i]);
                assert(piece.contains(piece[i]));
            } else {
                assert(bytes[i] == rest[i - n]);
            }
        }
    }
}

/// A string is found whenever it is there: where all of memory can be read, reading fails only if no byte
/// from the address on is NUL, up to the last page of the address space.
pub proof fn lemma_string_is_found<A: Fn(usize, usize) -> Option<Vec<u8>>, B: Fn(usize) -> Option<u8>>(
    bulk: A,
    byte: B,
    memory: spec_fn(int) -> u8,
    cursor: usize,
    k: usize,
)
    requires
        reads_memory(bulk, byte, memory),
        forall|at: usize, len: usize, answer: Option<Vec<u8>>| #[trigger]
            call_ensures(bulk, (at, len), answer) ==> answer is Some,
        cstring_read(bulk, byte, cursor, None),
        cursor <= k,
        k - k % 4096 + 4096 <= usize::MAX,
    ensures
        memory(k as int) != 0,
    decreases usize::MAX - cursor,
{
    reveal(cstring_read);
    let end = page_end(cursor) as usize;
    assert(page_end(cursor) <= k - k % 4096 + 4096);
    let piece = choose|piece: Option<Seq<u8>>| #[trigger]
        page_read(bulk, byte, cursor, end, piece) && match piece {
            None => true,
            Some(piece) => !(piece.len() > 0 && piece.last() == 0) && cstring_read(bulk, byte, end, None),
        };
    assert(piece is Some);
    lemma_page_is_faithful(bulk, byte, memory, cursor, end, piece->0);
    if is_terminated(piece->0) {
        assert(false);
    }
    if k < end {
        assert((piece->0)[k - cursor] == memory(k as int));
        assert((piece->0).contains((piece->0)[k - cursor]));
    } else {
        lemma_string_is_found(bulk, byte, memory, end, k);
    }
}

/// A guest pointer to a read-only object, kept as an address.
pub struct UserConstPtr<V, T> {
    inner: usize,
    pointee: PhantomData<T>,
    validator: PhantomData<V>,
}

impl<V: ValidateAccess, T> UserConstPtr<V, T> {
    /// The address that the pointer holds.
    pub closed spec fn address(&self) -> usize {
        self.inner
    }

    /// The pointer to an address.
    pub fn from_ptr(addr: usize) -> (ptr: Self)
        ensures
            ptr.address() == addr,
    {
        UserConstPtr { inner: addr, pointee: PhantomData, validator: PhantomData }
    }

    /// The address that the pointer holds.
    pub fn as_usize(&self) -> (addr: usize)
        ensures
            addr == self.address(),
    {
        self.inner
    }
}

/// A guest pointer to a mutable object, kept as an address.
pub struct UserMutPtr<V, T> {
    inner: usize,
    pointee: PhantomData<T>,
    validator: PhantomData<V>,
}

impl<V: ValidateAccess, T> UserMutPtr<V, T> {
    /// The address that the pointer holds.
    pub closed spec fn address(&self) -> usize {
        self.inner
    }

    /// The pointer to an address.
    pub fn from_ptr(addr: usize) -> (ptr: Self)
        ensures
            ptr.address() == addr,
    {
        UserMutPtr { inner: addr, pointee: PhantomData, validator: PhantomData }
    }

    /// The address that the pointer holds.
    pub fn as_usize(&self) -> (addr: usize)
        ensures
            addr == self.address(),
    {
        self.inner
    }
}

} // verus!
