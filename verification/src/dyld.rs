//! Dynamic linker.
//!
//! This is where high-level emulation begins to happen. The guest binary
//! references functions, constants and classes from its system libraries;
//! instead of loading the real libraries, this linker rewrites the
//! binary's stubs in place so that every external reference reaches a
//! host implementation, a peer binary's export, or a linker-synthesized
//! constant — without changing the calling sequences the guest code uses.
//!
//! The host-function and host-constant registries are built by the
//! embedder before the linker exists and passed in read-only: each is a
//! list of lists of `(mangled symbol name, value)` pairs. A mangled
//! C-style name is the symbol's name prefixed with `_`.

use vstd::prelude::*;

verus! {

use crate::abi::GuestFunction;
use crate::cpu::Cpu;
use crate::mach_o::{MachO, Section, find_section};
use crate::mem::{access_ok, word_at, spec_write_word, range_updated, ConstVoidPtr, Mem, MutPtr, Ptr};
use crate::objc::{ObjC, StaticStrings};
use crate::tables::{find_entry, lemma_find_entry_characterization};

/// SVC id reserved for invoking the lazy linker.
pub const SVC_LAZY_LINK: u32 = 0;
/// SVC id reserved for the special return-to-host routine.
pub const SVC_RETURN_TO_HOST: u32 = 1;
/// SVC id reserved for breakpoints.
pub const SVC_BREAKPOINT: u32 = 2;
/// SVC ids from here upward reference linked host functions, one id per
/// resolved function, assigned densely and never reused.
pub const SVC_LINKED_FUNCTIONS_BASE: u32 = SVC_BREAKPOINT + 1;

/// Encode an A32 "supervisor call" instruction with a 24-bit immediate.
pub fn encode_a32_svc(imm: u32) -> (r: u32)
    requires
        imm & 0xff00_0000 == 0,
    ensures
        r == imm | 0xef00_0000u32,
{
    imm | 0xef00_0000
}

/// Encode a compact-mode ("thumb") supervisor call with an 8-bit immediate.
pub fn encode_t32_svc(imm: u8) -> (r: u16)
    ensures
        r == (imm as u16) | 0xdf00u16,
{
    (imm as u16) | 0xdf00
}

/// Encode an A32 "return to caller" instruction.
pub fn encode_a32_ret() -> (r: u32)
    ensures
        r == 0xe12f_ff1eu32,
{
    0xe12f_ff1e
}

/// Encode an A32 permanent trap: a guard instruction that must never
/// execute.
pub fn encode_a32_trap() -> (r: u32)
    ensures
        r == 0xe7ff_defeu32,
{
    0xe7ff_defe
}

/// The two A32 instruction words of an unlinked "plain" stub, which
/// loads an absolute address-table entry (12-byte entries: two
/// instructions followed by the table address).
pub open spec fn plain_stub_instructions() -> Seq<u32> {
    seq![0xe59f_c000u32, 0xe59c_f000u32]
}

/// The instruction words of an unlinked position-independent stub, which
/// computes its table entry PC-relatively (16-byte entries: three
/// instructions and the offset).
pub open spec fn pic_stub_instructions() -> Seq<u32> {
    seq![0xe59f_c004u32, 0xe08f_c00cu32, 0xe59c_f000u32]
}

/// The unlinked-template instruction words for a stub-table entry size.
pub open spec fn stub_instructions(entry_size: u32) -> Seq<u32> {
    if entry_size == 12 {
        plain_stub_instructions()
    } else {
        pic_stub_instructions()
    }
}

/// The unlinked-template instruction words, as a vector.
pub fn stub_instruction_words(entry_size: u32) -> (v: Vec<u32>)
    requires
        entry_size == 12 || entry_size == 16,
    ensures
        v@ == stub_instructions(entry_size),
{
    let mut v: Vec<u32> = Vec::new();
    if entry_size == 12 {
        v.push(0xe59f_c000);
        v.push(0xe59c_f000);
        proof {
            assert(v@ =~= plain_stub_instructions());
        }
    } else {
        v.push(0xe59f_c004);
        v.push(0xe08f_c00c);
        v.push(0xe59c_f000);
        proof {
            assert(v@ =~= pic_stub_instructions());
        }
    }
    v
}

/// How a linking step fails. Faults that break a core assumption are
/// fatal to the emulated process: the embedder aborts on them, as there
/// is no safe way to continue.
#[derive(Debug, PartialEq, Eq)]
pub enum LinkError {
    /// A stub or section does not match the loader conventions this
    /// linker understands; an assumption has been violated.
    ConfigurationFault,
    /// A patch target lies below the null page or out of bounds.
    MemoryFault,
    /// Trap-time resolution failed against every source; the named symbol
    /// has no implementation anywhere.
    UnresolvedSymbol(String),
    /// The guest allocator cannot satisfy an allocation.
    OutOfGuestMemory,
    /// The reserved breakpoint trap was hit.
    Breakpoint,
    /// An SVC id that is not assigned to anything was raised.
    UnexpectedSvc,
}

impl Clone for LinkError {
    fn clone(&self) -> (r: Self)
        ensures
            r == *self,
    {
        match self {
            LinkError::ConfigurationFault => LinkError::ConfigurationFault,
            LinkError::MemoryFault => LinkError::MemoryFault,
            LinkError::UnresolvedSymbol(s) => LinkError::UnresolvedSymbol(s.clone()),
            LinkError::OutOfGuestMemory => LinkError::OutOfGuestMemory,
            LinkError::Breakpoint => LinkError::Breakpoint,
            LinkError::UnexpectedSvc => LinkError::UnexpectedSvc,
        }
    }
}

/// A constant (C `extern const` symbol) a host implementation exposes,
/// created by the linker when the guest binary references it. A custom
/// materialization routine is opaque to the linker: the token `C` is
/// handed back to the embedder to run (see [Dyld::do_late_linking]).
pub enum HostConstant<C> {
    NSString(String),
    NullPtr,
    Custom(C),
}

impl<C: Copy> Clone for HostConstant<C> {
    fn clone(&self) -> (r: Self)
        ensures
            r == *self,
    {
        match self {
            HostConstant::NSString(s) => HostConstant::NSString(s.clone()),
            HostConstant::NullPtr => HostConstant::NullPtr,
            HostConstant::Custom(c) => HostConstant::Custom(*c),
        }
    }
}

/// Helper for searching the registries: the first entry named `symbol`
/// across a list of lists, by list order.
pub open spec fn find_in_lists<T>(lists: Seq<Vec<(String, T)>>, symbol: Seq<char>) -> Option<(int, int)>
    decreases lists.len(),
{
    if lists.len() == 0 {
        None
    } else {
        match find_entry(lists[0]@, symbol) {
            Some(j) => Some((0int, j)),
            None => match find_in_lists(lists.drop_first(), symbol) {
                Some((i, j)) => Some((i + 1, j)),
                None => None,
            },
        }
    }
}

/// The registry value registered under `symbol`, if any.
pub open spec fn lists_lookup<T>(lists: Seq<Vec<(String, T)>>, symbol: Seq<char>) -> Option<T> {
    match find_in_lists(lists, symbol) {
        Some((i, j)) => Some(lists[i]@[j].1),
        None => None,
    }
}

pub proof fn lemma_find_in_lists_characterization<T>(lists: Seq<Vec<(String, T)>>, symbol: Seq<char>)
    ensures
        match find_in_lists(lists, symbol) {
            Some((i, j)) => {
                &&& 0 <= i < lists.len()
                &&& find_entry(lists[i]@, symbol) == Some(j)
                &&& forall|k: int| 0 <= k < i ==> find_entry((#[trigger] lists[k])@, symbol) is None
            },
            None => forall|k: int| 0 <= k < lists.len() ==> find_entry((#[trigger] lists[k])@, symbol) is None,
        },
    decreases lists.len(),
{
    if lists.len() > 0 && find_entry(lists[0]@, symbol) is None {
        let t = lists.drop_first();
        lemma_find_in_lists_characterization(t, symbol);
        assert forall|k: int| 0 <= k < t.len() implies #[trigger] t[k] == lists[k + 1] by {}
        match find_in_lists(t, symbol) {
            Some((i, j)) => {
                assert forall|k: int| 0 <= k < i + 1 implies find_entry((#[trigger] lists[k])@, symbol) is None by {
                    if k > 0 {
                        assert(find_entry(t[k - 1]@, symbol) is None);
                    }
                }
            },
            None => {
                assert forall|k: int| 0 <= k < lists.len() implies find_entry((#[trigger] lists[k])@, symbol) is None by {
                    if k > 0 {
                        assert(find_entry(t[k - 1]@, symbol) is None);
                    }
                }
            },
        }
    }
}

/// Helper for working with symbol lists in the registry style: find the
/// value registered under `symbol`, searching each list in order.
pub fn search_lists<'a, T>(lists: &'a [Vec<(String, T)>], symbol: &str) -> (r: Option<&'a T>)
    ensures
        match find_in_lists(lists@, symbol@) {
            Some((i, j)) => r is Some && *r->Some_0 == lists@[i]@[j].1,
            None => r is None,
        },
{
    proof {
        lemma_find_in_lists_characterization(lists@, symbol@);
    }
    let n = lists.len();
    let mut k: usize = 0;
    while k < n
        invariant
            n == lists@.len(),
            0 <= k <= n,
            forall|m: int| 0 <= m < k ==> find_entry((#[trigger] lists@[m])@, symbol@) is None,
        decreases n - k,
    {
        let list = vstd::slice::slice_index_get(lists, k);
        match crate::tables::find_entry_index(list, symbol) {
            Some(j) => {
                proof {
                    lemma_find_in_lists_characterization(lists@, symbol@);
                    match find_in_lists(lists@, symbol@) {
                        Some((i2, j2)) => {
                            if i2 < k {
                                assert(find_entry(lists@[i2]@, symbol@) is None);
                            }
                            if k < i2 {
                                assert(find_entry(lists@[k as int]@, symbol@) is None);
                            }
                            assert(i2 == k && j2 == j);
                            lemma_find_entry_characterization(list@, symbol@);
                        },
                        None => {
                            assert(find_entry(lists@[k as int]@, symbol@) is None);
                        },
                    }
                }
                let entry = &list[j];
                return Some(&entry.1);
            },
            None => {},
        }
        k += 1;
    }
    proof {
        lemma_find_in_lists_characterization(lists@, symbol@);
        if find_in_lists(lists@, symbol@) is Some {
            let (i2, j2) = find_in_lists(lists@, symbol@)->Some_0;
            assert(find_entry(lists@[i2]@, symbol@) is None);
        }
    }
    None
}

/// The stub-table section of a binary: `__symbol_stub4` (plain stubs) or
/// else `__picsymbolstub4` (position-independent stubs).
pub open spec fn spec_stubs_section(bin: MachO) -> Option<Section> {
    match find_section(bin.sections@, "__symbol_stub4"@) {
        Some(i) => Some(bin.sections@[i]),
        None => match find_section(bin.sections@, "__picsymbolstub4"@) {
            Some(i) => Some(bin.sections@[i]),
            None => None,
        },
    }
}

/// Whether `pc` lies inside the stub table of `bin`.
pub open spec fn pc_in_stubs(bin: MachO, pc: u32) -> bool {
    match spec_stubs_section(bin) {
        Some(s) => s.addr <= pc < s.addr + s.size,
        None => false,
    }
}

/// Index of the first binary whose stub table contains `pc`.
pub open spec fn find_stub_bin(bins: Seq<MachO>, pc: u32) -> Option<int>
    decreases bins.len(),
{
    if bins.len() == 0 {
        None
    } else if pc_in_stubs(bins[0], pc) {
        Some(0)
    } else {
        match find_stub_bin(bins.drop_first(), pc) {
            Some(i) => Some(i + 1),
            None => None,
        }
    }
}

pub proof fn lemma_find_stub_bin_characterization(bins: Seq<MachO>, pc: u32)
    ensures
        match find_stub_bin(bins, pc) {
            Some(i) => {
                &&& 0 <= i < bins.len()
                &&& pc_in_stubs(bins[i], pc)
                &&& forall|j: int| 0 <= j < i ==> !pc_in_stubs(#[trigger] bins[j], pc)
            },
            None => forall|j: int| 0 <= j < bins.len() ==> !pc_in_stubs(#[trigger] bins[j], pc),
        },
    decreases bins.len(),
{
    if bins.len() > 0 && !pc_in_stubs(bins[0], pc) {
        let t = bins.drop_first();
        lemma_find_stub_bin_characterization(t, pc);
        assert forall|j: int| 0 <= j < t.len() implies #[trigger] t[j] == bins[j + 1] by {}
        match find_stub_bin(t, pc) {
            Some(i) => {
                assert forall|j: int| 0 <= j < i + 1 implies !pc_in_stubs(#[trigger] bins[j], pc) by {
                    if j > 0 {
                        assert(!pc_in_stubs(t[j - 1], pc));
                    }
                }
            },
            None => {
                assert forall|j: int| 0 <= j < bins.len() implies !pc_in_stubs(#[trigger] bins[j], pc) by {
                    if j > 0 {
                        assert(!pc_in_stubs(t[j - 1], pc));
                    }
                }
            },
        }
    }
}

/// Index of the first binary at or after position `i` exporting `symbol`.
pub open spec fn find_export_from(bins: Seq<MachO>, i: int, symbol: Seq<char>) -> Option<int>
    decreases bins.len() - i,
{
    if i < 0 || i >= bins.len() {
        None
    } else if bins[i].spec_exported_symbol(symbol) is Some {
        Some(i)
    } else {
        find_export_from(bins, i + 1, symbol)
    }
}

pub proof fn lemma_find_export_from_characterization(bins: Seq<MachO>, i: int, symbol: Seq<char>)
    requires
        0 <= i,
    ensures
        match find_export_from(bins, i, symbol) {
            Some(k) => {
                &&& i <= k < bins.len()
                &&& bins[k].spec_exported_symbol(symbol) is Some
                &&& forall|j: int| i <= j < k ==> (#[trigger] bins[j]).spec_exported_symbol(symbol) is None
            },
            None => forall|j: int| i <= j < bins.len() ==> (#[trigger] bins[j]).spec_exported_symbol(symbol) is None,
        },
    decreases bins.len() - i,
{
    if i < bins.len() && bins[i].spec_exported_symbol(symbol) is None {
        lemma_find_export_from_characterization(bins, i + 1, symbol);
    }
}

/// The metadata checks a stub table must pass before its slots can be
/// interpreted: indirect-symbol info present, a known entry size, and
/// `pc` on a slot boundary with a named symbol.
pub open spec fn stub_lookup_ok(s: Section, pc: u32) -> bool {
    &&& s.dyld_indirect_symbol_info is Some
    &&& {
        let info = s.dyld_indirect_symbol_info->Some_0;
        let es = info.entry_size;
        &&& (es == 12 || es == 16)
        &&& (pc - s.addr) % (es as int) == 0
        &&& ((pc - s.addr) / (es as int)) < info.indirect_undef_symbols@.len()
        &&& info.indirect_undef_symbols@[(pc - s.addr) / (es as int)] is Some
    }
}

/// The indirect symbol named by the stub slot containing `pc`.
pub open spec fn stub_symbol(s: Section, pc: u32) -> Seq<char> {
    let info = s.dyld_indirect_symbol_info->Some_0;
    info.indirect_undef_symbols@[(pc - s.addr) / (info.entry_size as int)]->Some_0@
}

/// `b` with the unlinked stub template written back over the slot at
/// `slot`: the two (plain) or three (position-independent) template
/// instructions; the trailing table word of the slot is untouched.
pub open spec fn spec_write_template(b: Seq<u8>, slot: int, es: u32) -> Seq<u8> {
    let b1 = spec_write_word(b, slot, stub_instructions(es)[0]);
    let b2 = spec_write_word(b1, slot + 4, stub_instructions(es)[1]);
    if es == 16 {
        spec_write_word(b2, slot + 8, stub_instructions(es)[2])
    } else {
        b2
    }
}

/// Everything [Dyld::do_lazy_link] (and so the lazy-link arm of
/// [Dyld::get_svc_handler]) decides and changes, as a relation between
/// the states before and after the call and its result.
///
/// In the three failure shapes — no stub table contains `pc`, the stub
/// metadata is malformed, or a patch would leave bounds — and on an
/// unresolved symbol, nothing is changed. When the symbol resolves to a
/// registered host function, the stub's first instruction becomes a
/// supervisor call with a freshly assigned id, its second instruction
/// (already a return) stays, the patched bytes are queued for
/// instruction-cache invalidation, and the function is handed back for
/// immediate invocation. When the symbol instead resolves to a peer
/// binary's export, the stub is restored to its vendor template, the
/// table cell the stub reads (absolute, or PC-relative plus eight) is
/// patched to the export's address, the restored bytes are queued for
/// invalidation, and `Ok(None)` tells the caller to resume at `pc`.
pub open spec fn lazy_link_relation<F, C>(
    d0: Dyld<F, C>,
    d1: Dyld<F, C>,
    m0: Mem,
    m1: Mem,
    c0: Cpu,
    c1: Cpu,
    bins: Seq<MachO>,
    functions: Seq<Vec<(String, F)>>,
    pc: u32,
    r: Result<Option<F>, LinkError>,
) -> bool {
    let unchanged = d1 == d0 && m1 == m0 && c1 == c0;
    match find_stub_bin(bins, pc) {
        None => r == Err::<Option<F>, LinkError>(LinkError::ConfigurationFault) && unchanged,
        Some(bi) => {
            let s = spec_stubs_section(bins[bi])->Some_0;
            if !stub_lookup_ok(s, pc) {
                r == Err::<Option<F>, LinkError>(LinkError::ConfigurationFault) && unchanged
            } else {
                let es = s.dyld_indirect_symbol_info->Some_0.entry_size;
                let symbol = stub_symbol(s, pc);
                match lists_lookup(functions, symbol) {
                    Some(f) => {
                        if !access_ok(m0.bytes@, pc, 8) {
                            r == Err::<Option<F>, LinkError>(LinkError::MemoryFault) && unchanged
                        } else if word_at(m0.bytes@, pc + 4) != 0xe12f_ff1eu32 {
                            r == Err::<Option<F>, LinkError>(LinkError::ConfigurationFault) && unchanged
                        } else {
                            let svc = (SVC_LINKED_FUNCTIONS_BASE + d0.linked_host_functions@.len()) as u32;
                            &&& r == Ok::<Option<F>, LinkError>(Some(f))
                            &&& d1.linked_host_functions@ == d0.linked_host_functions@.push(f)
                            &&& d1.return_to_host_routine == d0.return_to_host_routine
                            &&& d1.constants_to_link_later == d0.constants_to_link_later
                            &&& m1.bytes@ == spec_write_word(m0.bytes@, pc as int, svc | 0xef00_0000)
                            &&& m1.allocator == m0.allocator
                            &&& c1.invalidations@ == c0.invalidations@.push((pc, 4u32))
                        }
                    },
                    None => match find_export_from(bins, 1, symbol) {
                        Some(k) => {
                            let target = bins[k].spec_exported_symbol(symbol)->Some_0;
                            if !access_ok(m0.bytes@, pc, es as int) {
                                r == Err::<Option<F>, LinkError>(LinkError::MemoryFault) && unchanged
                            } else {
                                let word = word_at(m0.bytes@, pc + (es - 4));
                                let la: u32 = if es == 12 {
                                    word
                                } else {
                                    // the PC-relative form: offset plus the stub's own
                                    // address plus eight, with 32-bit wraparound
                                    vstd::wrapping::u32_specs::wrapping_add(
                                        vstd::wrapping::u32_specs::wrapping_add(pc, word),
                                        8,
                                    )
                                };
                                if !access_ok(m0.bytes@, la, 4) {
                                    r == Err::<Option<F>, LinkError>(LinkError::MemoryFault) && unchanged
                                } else {
                                    &&& r == Ok::<Option<F>, LinkError>(None)
                                    &&& d1 == d0
                                    &&& m1.bytes@ == spec_write_word(
                                        spec_write_template(m0.bytes@, pc as int, es),
                                        la as int,
                                        target,
                                    )
                                    &&& m1.allocator == m0.allocator
                                    &&& c1.invalidations@ == c0.invalidations@.push((pc, (es - 4) as u32))
                                }
                            }
                        },
                        None => {
                            &&& r matches Err(LinkError::UnresolvedSymbol(n)) && n@ == symbol
                            &&& unchanged
                        },
                    },
                }
            }
        },
    }
}

/// One unlinked stub slot sits at `slot`: its instruction words match the
/// vendor template for this entry size.
pub open spec fn slot_unlinked(b: Seq<u8>, slot: int, es: u32) -> bool {
    &&& word_at(b, slot) == stub_instructions(es)[0]
    &&& word_at(b, slot + 4) == stub_instructions(es)[1]
    &&& (es == 16 ==> word_at(b, slot + 8) == stub_instructions(es)[2])
}

/// Every stub slot from `cur` (inclusive) to `end` (exclusive), at
/// `es`-byte steps, is in unlinked template form.
pub open spec fn stubs_unlinked_range(b: Seq<u8>, cur: int, end: int, es: u32) -> bool
    decreases end - cur,
{
    if cur >= end || es < 12 {
        true
    } else {
        let next = if cur + es < end { cur + es } else { end };
        slot_unlinked(b, cur, es) && stubs_unlinked_range(b, next, end, es)
    }
}

/// One stub slot rewritten to its transition-ready trap form: a lazy-link
/// supervisor call, a return, and (for the longer position-independent
/// slots) a guard trap; the slot's trailing table word is untouched.
pub open spec fn write_trap_slot(b: Seq<u8>, slot: int, es: u32) -> Seq<u8> {
    let b1 = spec_write_word(b, slot, 0xef00_0000u32);
    let b2 = spec_write_word(b1, slot + 4, 0xe12f_ff1eu32);
    if es == 16 {
        spec_write_word(b2, slot + 8, 0xe7ff_defeu32)
    } else {
        b2
    }
}

/// Every stub slot from `cur` to `end` rewritten to trap form, in order.
pub open spec fn write_trap_slots(b: Seq<u8>, cur: int, end: int, es: u32) -> Seq<u8>
    decreases end - cur,
{
    if cur >= end || es < 12 {
        b
    } else {
        let next = if cur + es < end { cur + es } else { end };
        write_trap_slots(write_trap_slot(b, cur, es), next, end, es)
    }
}

/// Everything [Dyld::setup_lazy_linking] does to guest memory. A binary
/// without a stub table needs nothing. Otherwise the stub table's
/// metadata must name a known entry size dividing the section size, the
/// section must be addressable, and every slot must hold the exact vendor
/// template — any mismatch means a loader-convention assumption has been
/// violated and nothing is patched. When all checks pass, every slot is
/// rewritten to trap into the lazy linker.
pub open spec fn spec_setup_lazy(b: Seq<u8>, bin: MachO) -> Result<Seq<u8>, LinkError> {
    match spec_stubs_section(bin) {
        None => Ok(b),
        Some(s) => {
            if s.dyld_indirect_symbol_info is None {
                Err(LinkError::ConfigurationFault)
            } else {
                let es = s.dyld_indirect_symbol_info->Some_0.entry_size;
                if !(es == 12 || es == 16) {
                    Err(LinkError::ConfigurationFault)
                } else if s.size % es != 0 {
                    Err(LinkError::ConfigurationFault)
                } else if !access_ok(b, s.addr, s.size as int) {
                    Err(LinkError::MemoryFault)
                } else if !stubs_unlinked_range(b, s.addr as int, s.addr + s.size, es) {
                    Err(LinkError::ConfigurationFault)
                } else {
                    Ok(write_trap_slots(b, s.addr as int, s.addr + s.size, es))
                }
            }
        },
    }
}

/// A positive multiple of `es` is at least `es`, and stays a multiple
/// after one step down.
pub proof fn lemma_mod_step(x: int, es: int)
    requires
        es > 0,
        x % es == 0,
        x > 0,
    ensures
        x >= es,
        (x - es) % es == 0,
{
    vstd::arithmetic::div_mod::lemma_fundamental_div_mod(x, es);
    let q = x / es;
    assert(x == es * q);
    assert(q > 0) by (nonlinear_arith)
        requires es > 0, x > 0, x == es * q;
    assert(x >= es) by (nonlinear_arith)
        requires q > 0, es > 0, x == es * q;
    assert(x - es == (q - 1) * es) by (nonlinear_arith)
        requires x == es * q;
    vstd::arithmetic::div_mod::lemma_mod_multiples_basic(q - 1, es);
    assert(((q - 1) * es) % es == 0);
}

/// Within an unlinked range, every aligned slot is in template form.
pub proof fn lemma_unlinked_range_index(b: Seq<u8>, a: int, end: int, es: u32, cur: int)
    requires
        es == 12 || es == 16,
        stubs_unlinked_range(b, a, end, es),
        a <= cur < end,
        (cur - a) % (es as int) == 0,
    ensures
        slot_unlinked(b, cur, es),
    decreases cur - a,
{
    if cur > a {
        lemma_mod_step(cur - a, es as int);
        lemma_unlinked_range_index(b, a + es, end, es, cur);
    }
}

/// An unlinked range grows by one slot at its end.
pub proof fn lemma_unlinked_range_extend(b: Seq<u8>, a: int, cur: int, es: u32)
    requires
        es == 12 || es == 16,
        a <= cur,
        (cur - a) % (es as int) == 0,
        stubs_unlinked_range(b, a, cur, es),
        slot_unlinked(b, cur, es),
    ensures
        stubs_unlinked_range(b, a, cur + es, es),
    decreases cur - a,
{
    if cur > a {
        lemma_mod_step(cur - a, es as int);
        assert(a + es <= cur);
        assert(slot_unlinked(b, a, es));
        if a + es < cur {
            assert(stubs_unlinked_range(b, a + es, cur, es));
        } else {
            assert(a + es == cur);
            assert(stubs_unlinked_range(b, a + es, cur, es));
        }
        lemma_unlinked_range_extend(b, a + es, cur, es);
        assert(stubs_unlinked_range(b, a + es, cur + es, es));
        assert(stubs_unlinked_range(b, a, cur + es, es));
    } else {
        assert(cur == a);
        assert(stubs_unlinked_range(b, cur + es, cur + es, es));
        assert(stubs_unlinked_range(b, a, cur + es, es));
    }
}

/// What one external relocation's name resolves to: a class pointer, a
/// metaclass pointer, or the constant-string class reference. `None` is
/// an unhandled name: eager linking logs it and moves on, deferring any
/// real failure to the point of use.
pub open spec fn spec_reloc_value(objc: ObjC, name: Seq<char>) -> Option<u32> {
    if "_OBJC_CLASS_$_"@.is_prefix_of(name) {
        objc.spec_link_class(name.skip("_OBJC_CLASS_$_"@.len() as int), false)
    } else if "_OBJC_METACLASS_$_"@.is_prefix_of(name) {
        objc.spec_link_class(name.skip("_OBJC_METACLASS_$_"@.len() as int), true)
    } else if name == "___CFConstantStringClassReference"@ {
        Some(objc.constant_string_class)
    } else {
        None
    }
}

/// The external-relocation walk from index `i` on: each resolvable name
/// has its pointer written at the relocation's patch target; unresolvable
/// names are skipped. A patch target outside addressable memory is fatal.
pub open spec fn apply_relocations(
    b: Seq<u8>,
    relocs: Seq<(u32, String)>,
    i: int,
    objc: ObjC,
) -> Result<Seq<u8>, LinkError>
    decreases relocs.len() - i,
{
    if i < 0 || i >= relocs.len() {
        Ok(b)
    } else {
        let (addr, name) = relocs[i];
        match spec_reloc_value(objc, name@) {
            None => apply_relocations(b, relocs, i + 1, objc),
            Some(v) => if access_ok(b, addr, 4) {
                apply_relocations(spec_write_word(b, addr as int, v), relocs, i + 1, objc)
            } else {
                Err(LinkError::MemoryFault)
            },
        }
    }
}

/// The non-lazy symbol-pointer walk from entry `i` (at address `addr`)
/// on. Each named entry is resolved first against every loaded binary's
/// exports (a binary may reference any peer, itself included) and its
/// pointer written; otherwise against the host-constant registry, in
/// which case materialization is deferred and the entry queued; anything
/// still unresolved is skipped. A missing symbol record or an
/// unaddressable entry is fatal.
pub open spec fn apply_nl_pointers<C>(
    b: Seq<u8>,
    q: Seq<(u32, HostConstant<C>)>,
    syms: Seq<Option<String>>,
    i: int,
    addr: int,
    end: int,
    bins: Seq<MachO>,
    constants: Seq<Vec<(String, HostConstant<C>)>>,
) -> Result<(Seq<u8>, Seq<(u32, HostConstant<C>)>), LinkError>
    decreases end - addr,
{
    if addr >= end {
        Ok((b, q))
    } else if i >= syms.len() {
        Err(LinkError::ConfigurationFault)
    } else {
        let next = if addr + 4 < end {
            addr + 4
        } else {
            end
        };
        match syms[i] {
            None => apply_nl_pointers(b, q, syms, i + 1, next, end, bins, constants),
            Some(sym) => match find_export_from(bins, 0, sym@) {
                Some(k) => {
                    let v = bins[k].spec_exported_symbol(sym@)->Some_0;
                    if crate::mem::NULL_PAGE_SIZE <= addr && addr + 4 <= b.len() {
                        apply_nl_pointers(
                            spec_write_word(b, addr, v),
                            q,
                            syms,
                            i + 1,
                            next,
                            end,
                            bins,
                            constants,
                        )
                    } else {
                        Err(LinkError::MemoryFault)
                    }
                },
                None => match lists_lookup(constants, sym@) {
                    Some(c) => apply_nl_pointers(b, q.push((addr as u32, c)), syms, i + 1, next, end, bins, constants),
                    None => apply_nl_pointers(b, q, syms, i + 1, next, end, bins, constants),
                },
            },
        }
    }
}

/// Everything [Dyld::do_non_lazy_linking] does: walk the binary's
/// external relocations, then its non-lazy symbol-pointer table (whose
/// entries must be four bytes), patching pointers and queueing deferred
/// constants.
pub open spec fn spec_non_lazy<C>(
    b: Seq<u8>,
    q: Seq<(u32, HostConstant<C>)>,
    bin: MachO,
    bins: Seq<MachO>,
    objc: ObjC,
    constants: Seq<Vec<(String, HostConstant<C>)>>,
) -> Result<(Seq<u8>, Seq<(u32, HostConstant<C>)>), LinkError> {
    match apply_relocations(b, bin.external_relocations@, 0, objc) {
        Err(e) => Err(e),
        Ok(b1) => match find_section(bin.sections@, "__nl_symbol_ptr"@) {
            None => Ok((b1, q)),
            Some(si) => {
                let s = bin.sections@[si];
                if s.dyld_indirect_symbol_info is None {
                    Err(LinkError::ConfigurationFault)
                } else {
                    let info = s.dyld_indirect_symbol_info->Some_0;
                    if info.entry_size != 4 {
                        Err(LinkError::ConfigurationFault)
                    } else if s.size % 4 != 0 {
                        Err(LinkError::ConfigurationFault)
                    } else if s.addr + s.size > b1.len() {
                        Err(LinkError::MemoryFault)
                    } else {
                        apply_nl_pointers(
                            b1,
                            q,
                            info.indirect_undef_symbols@,
                            0,
                            s.addr as int,
                            s.addr + s.size,
                            bins,
                            constants,
                        )
                    }
                }
            },
        },
    }
}

/// The host function a linked SVC id dispatches to: ids count upward from
/// [SVC_LINKED_FUNCTIONS_BASE] into the linked-function list.
pub open spec fn svc_lookup<F>(linked: Seq<F>, svc: u32) -> Option<F> {
    if svc >= SVC_LINKED_FUNCTIONS_BASE && svc - SVC_LINKED_FUNCTIONS_BASE < linked.len() {
        Some(linked[svc - SVC_LINKED_FUNCTIONS_BASE])
    } else {
        None
    }
}

/// Everything [Dyld::create_proc_address] decides and changes. An
/// unknown symbol reports failure and mutates nothing — in particular the
/// per-function id counter is unchanged. A known symbol gets the next
/// free id bound to its host function and a fresh eight-byte trampoline
/// ("trap with this id", "return") in newly allocated guest memory, whose
/// address is returned.
pub open spec fn proc_address_relation<F, C>(
    d0: Dyld<F, C>,
    d1: Dyld<F, C>,
    m0: Mem,
    m1: Mem,
    c0: Cpu,
    c1: Cpu,
    functions: Seq<Vec<(String, F)>>,
    symbol: Seq<char>,
    r: Result<GuestFunction, ()>,
) -> bool {
    match lists_lookup(functions, symbol) {
        None => r == Err::<GuestFunction, ()>(()) && d1 == d0 && m1 == m0 && c1 == c0,
        Some(f) => {
            let svc = (SVC_LINKED_FUNCTIONS_BASE + d0.linked_host_functions@.len()) as u32;
            let (a2, base) = crate::mem::allocator::spec_alloc(m0.allocator@, 8)->Some_0;
            &&& crate::mem::allocator::spec_alloc(m0.allocator@, 8) is Some
            &&& d1.linked_host_functions@ == d0.linked_host_functions@.push(f)
            &&& d1.return_to_host_routine == d0.return_to_host_routine
            &&& d1.constants_to_link_later == d0.constants_to_link_later
            &&& m1.allocator@ == a2
            &&& m1.bytes@ == spec_write_word(
                spec_write_word(m0.bytes@, base as int, svc | 0xef00_0000),
                base + 4,
                0xe12f_ff1eu32,
            )
            &&& c1.invalidations@ == c0.invalidations@.push((base, 4u32))
            &&& r == Ok::<GuestFunction, ()>(GuestFunction { addr_with_thumb_bit: base })
        },
    }
}

/// The view of a list of patch targets paired with payloads: the guest
/// addresses of the targets, with the payloads carried along. Used for
/// the deferred-constant queue and for custom-materialization jobs.
pub open spec fn queue_view<T>(q: Seq<(MutPtr<ConstVoidPtr>, T)>) -> Seq<(u32, T)> {
    Seq::new(q.len(), |i: int| (q[i].0.addr(), q[i].1))
}

/// Pushing a queue entry appends its view.
pub proof fn lemma_queue_view_push<T>(
    q: Seq<(MutPtr<ConstVoidPtr>, T)>,
    p: (MutPtr<ConstVoidPtr>, T),
)
    ensures
        queue_view(q.push(p)) == queue_view(q).push((p.0.addr(), p.1)),
{
    assert(queue_view(q.push(p)) =~= queue_view(q).push((p.0.addr(), p.1)));
}

/// Initial linking of the loaded binaries from index `i` on, in
/// dependency order: for each binary, first install its lazy stubs, only
/// then link its non-lazy symbols.
pub open spec fn spec_initial_bins<C>(
    b: Seq<u8>,
    q: Seq<(u32, HostConstant<C>)>,
    bins: Seq<MachO>,
    i: int,
    objc: ObjC,
    constants: Seq<Vec<(String, HostConstant<C>)>>,
) -> Result<(Seq<u8>, Seq<(u32, HostConstant<C>)>), LinkError>
    decreases bins.len() - i,
{
    if i < 0 || i >= bins.len() {
        Ok((b, q))
    } else {
        match spec_setup_lazy(b, bins[i]) {
            Err(e) => Err(e),
            Ok(b1) => match spec_non_lazy(b1, q, bins[i], bins, objc, constants) {
                Err(e) => Err(e),
                Ok((b2, q2)) => spec_initial_bins(b2, q2, bins, i + 1, objc, constants),
            },
        }
    }
}

/// The deferred-constant drain from entry `i` on, with `jobs` the custom
/// materializations collected so far. A string or null-pointer constant
/// gets a freshly allocated cell holding its value, and the cell's
/// address is written at the recorded patch target; a string with no
/// interned object is skipped. Custom constants are handed back as jobs
/// for the embedder, in queue order. Exhausting guest memory or an
/// unaddressable patch target is fatal.
pub open spec fn apply_late_constants<C>(
    b: Seq<u8>,
    a: crate::mem::allocator::AllocModel,
    entries: Seq<(u32, HostConstant<C>)>,
    i: int,
    jobs: Seq<(u32, C)>,
    strings: StaticStrings,
) -> Result<(Seq<u8>, crate::mem::allocator::AllocModel, Seq<(u32, C)>), LinkError>
    decreases entries.len() - i, 1int,
{
    if i < 0 || i >= entries.len() {
        Ok((b, a, jobs))
    } else {
        let (target, konst) = entries[i];
        match konst {
            HostConstant::Custom(c) => apply_late_constants(b, a, entries, i + 1, jobs.push((target, c)), strings),
            HostConstant::NSString(sstr) => match strings.spec_lookup(sstr@) {
                None => apply_late_constants(b, a, entries, i + 1, jobs, strings),
                Some(saddr) => apply_late_cell(b, a, entries, i, jobs, strings, target, saddr),
            },
            HostConstant::NullPtr => apply_late_cell(b, a, entries, i, jobs, strings, target, 0),
        }
    }
}

/// One materialized constant: allocate a four-byte cell, store `value` in
/// it, and write the cell's address at the patch target.
pub open spec fn apply_late_cell<C>(
    b: Seq<u8>,
    a: crate::mem::allocator::AllocModel,
    entries: Seq<(u32, HostConstant<C>)>,
    i: int,
    jobs: Seq<(u32, C)>,
    strings: StaticStrings,
    target: u32,
    value: u32,
) -> Result<(Seq<u8>, crate::mem::allocator::AllocModel, Seq<(u32, C)>), LinkError>
    decreases entries.len() - i, 0int,
{
    if i < 0 || i >= entries.len() {
        Ok((b, a, jobs))
    } else {
        match crate::mem::allocator::spec_alloc(a, 4) {
            None => Err(LinkError::OutOfGuestMemory),
            Some((a2, cell)) => if access_ok(b, target, 4) {
                apply_late_constants(
                    spec_write_word(spec_write_word(b, cell as int, value), target as int, cell),
                    a2,
                    entries,
                    i + 1,
                    jobs,
                    strings,
                )
            } else {
                Err(LinkError::MemoryFault)
            },
        }
    }
}

/// The dynamic linker's own state: the linked-host-function list (SVC ids
/// count into it), the synthesized return-to-host routine, and the queue
/// of constants whose materialization is deferred to late linking.
///
/// `F` is the embedder's host-callable function type; `C` its token for
/// custom constant-materialization routines. Both are opaque here.
pub struct Dyld<F, C> {
    pub linked_host_functions: Vec<F>,
    pub return_to_host_routine: Option<GuestFunction>,
    pub constants_to_link_later: Vec<(MutPtr<ConstVoidPtr>, HostConstant<C>)>,
}

impl<F: Copy, C: Copy> Dyld<F, C> {
    pub fn new() -> (r: Dyld<F, C>)
        ensures
            r.linked_host_functions@ == Seq::<F>::empty(),
            r.return_to_host_routine is None,
            r.constants_to_link_later@ == Seq::<(MutPtr<ConstVoidPtr>, HostConstant<C>)>::empty(),
    {
        Dyld {
            linked_host_functions: Vec::new(),
            return_to_host_routine: None,
            constants_to_link_later: Vec::new(),
        }
    }

    /// The sentinel routine host logic jumps to when handing control back
    /// to the host. Created once during initial linking; asking for it
    /// before then is a bug, which the contract excludes.
    pub fn return_to_host_routine(&self) -> (r: GuestFunction)
        requires
            self.return_to_host_routine is Some,
        ensures
            r == self.return_to_host_routine->Some_0,
    {
        self.return_to_host_routine.unwrap()
    }

    /// Return the host function registered to handle an SVC instruction
    /// encountered during CPU emulation, linking lazily if the SVC is the
    /// reserved lazy-link id. `Ok(None)` means execution must resume at
    /// `svc_pc`. The reserved return-to-host id is not handled here, and
    /// hitting a breakpoint or an unassigned id is fatal.
    pub fn get_svc_handler(
        &mut self,
        bins: &[MachO],
        mem: &mut Mem,
        cpu: &mut Cpu,
        svc_pc: u32,
        svc: u32,
        functions: &[Vec<(String, F)>],
    ) -> (r: Result<Option<F>, LinkError>)
        requires
            old(mem).wf(),
            old(self).linked_host_functions@.len() + SVC_LINKED_FUNCTIONS_BASE < 0x100_0000,
        ensures
            final(mem).wf(),
            svc == SVC_LAZY_LINK ==> lazy_link_relation(
                *old(self),
                *final(self),
                *old(mem),
                *final(mem),
                *old(cpu),
                *final(cpu),
                bins@,
                functions@,
                svc_pc,
                r,
            ),
            svc != SVC_LAZY_LINK ==> {
                &&& *final(self) == *old(self)
                &&& *final(mem) == *old(mem)
                &&& *final(cpu) == *old(cpu)
                &&& (svc == SVC_RETURN_TO_HOST || svc == SVC_BREAKPOINT || svc_lookup(
                    old(self).linked_host_functions@,
                    svc,
                ) is None) <==> r is Err
                &&& svc == SVC_RETURN_TO_HOST ==> r == Err::<Option<F>, LinkError>(LinkError::UnexpectedSvc)
                &&& svc == SVC_BREAKPOINT ==> r == Err::<Option<F>, LinkError>(LinkError::Breakpoint)
                &&& (svc >= SVC_LINKED_FUNCTIONS_BASE && svc_lookup(old(self).linked_host_functions@, svc)
                    is Some) ==> r == Ok::<Option<F>, LinkError>(Some(
                    svc_lookup(old(self).linked_host_functions@, svc)->Some_0,
                ))
                &&& (svc >= SVC_LINKED_FUNCTIONS_BASE && svc_lookup(old(self).linked_host_functions@, svc)
                    is None) ==> r == Err::<Option<F>, LinkError>(LinkError::UnexpectedSvc)
            },
    {
        if svc == SVC_LAZY_LINK {
            self.do_lazy_link(bins, mem, cpu, svc_pc, functions)
        } else if svc == SVC_RETURN_TO_HOST {
            // the interpreter is expected to handle this id itself
            Err(LinkError::UnexpectedSvc)
        } else if svc == SVC_BREAKPOINT {
            Err(LinkError::Breakpoint)
        } else {
            let idx = svc - SVC_LINKED_FUNCTIONS_BASE;
            if (idx as usize) < self.linked_host_functions.len() {
                Ok(Some(self.linked_host_functions[idx as usize]))
            } else {
                Err(LinkError::UnexpectedSvc)
            }
        }
    }

    /// Set up lazy-linking stubs for a loaded binary.
    ///
    /// Dynamic linking of functions usually happens "lazily": the stub a
    /// call site jumps to resolves its target on first use. The stubs in
    /// the binary are verified byte-for-byte against the two known vendor
    /// templates, then rewritten so that they invoke this linker's
    /// lazy-link trap and return. See [spec_setup_lazy].
    pub fn setup_lazy_linking(&self, bin: &MachO, mem: &mut Mem) -> (r: Result<(), LinkError>)
        requires
            old(mem).wf(),
        ensures
            final(mem).wf(),
            final(mem).allocator == old(mem).allocator,
            match spec_setup_lazy(old(mem).bytes@, *bin) {
                Ok(b2) => r == Ok::<(), LinkError>(()) && final(mem).bytes@ == b2,
                Err(e) => r == Err::<(), LinkError>(e) && final(mem).bytes@ == old(mem).bytes@,
            },
    {
        let stubs = match get_stubs_section(bin) {
            Some(s) => s,
            None => {
                return Ok(());
            },
        };
        let ghost s = spec_stubs_section(*bin)->Some_0;
        let info = match &stubs.dyld_indirect_symbol_info {
            Some(info) => info,
            None => {
                return Err(LinkError::ConfigurationFault);
            },
        };
        let es = info.entry_size;
        if !(es == 12 || es == 16) {
            return Err(LinkError::ConfigurationFault);
        }
        if stubs.size % es != 0 {
            return Err(LinkError::ConfigurationFault);
        }
        if !mem.check_access(stubs.addr, stubs.size) {
            return Err(LinkError::MemoryFault);
        }
        let base = stubs.addr;
        let end: u64 = (stubs.addr as u64) + (stubs.size as u64);
        let ghost b0 = mem.bytes@;
        // first pass: verify that every slot holds the vendor template
        let words = stub_instruction_words(es);
        let mut cur: u64 = base as u64;
        while cur < end
            invariant
                *mem == *old(mem),
                old(mem).wf(),
                b0 == mem.bytes@,
                es == 12 || es == 16,
                words@ == stub_instructions(es),
                base as u64 <= cur <= end,
                end == base as u64 + s.size as u64,
                base == s.addr,
                access_ok(b0, base, s.size as int),
                spec_stubs_section(*bin) == Some(s),
                s.dyld_indirect_symbol_info is Some,
                es == s.dyld_indirect_symbol_info->Some_0.entry_size,
                s.size % es == 0,
                (cur - base as u64) % (es as int) == 0,
                (end - cur) % (es as int) == 0,
                stubs_unlinked_range(b0, base as int, cur as int, es),
            decreases end - cur,
        {
            proof {
                lemma_mod_step(end - cur, es as int);
            }
            let slot = cur as u32;
            let w0: u32 = mem.read(Ptr::<u32, false>::from_bits(slot));
            let w1: u32 = mem.read(Ptr::<u32, false>::from_bits(slot + 4));
            let ok = if es == 16 {
                let w2: u32 = mem.read(Ptr::<u32, false>::from_bits(slot + 8));
                w0 == words[0] && w1 == words[1] && w2 == words[2]
            } else {
                w0 == words[0] && w1 == words[1]
            };
            if !ok {
                proof {
                    assert(!slot_unlinked(b0, cur as int, es));
                    if stubs_unlinked_range(b0, base as int, base + s.size, es) {
                        lemma_unlinked_range_index(b0, base as int, base + s.size, es, cur as int);
                    }
                }
                return Err(LinkError::ConfigurationFault);
            }
            proof {
                assert(slot_unlinked(b0, cur as int, es));
                lemma_unlinked_range_extend(b0, base as int, cur as int, es);
            }
            cur = cur + es as u64;
        }
        // second pass: rewrite every slot to trap into the lazy linker
        proof {
            assert(0u32 & 0xff00_0000u32 == 0u32) by (bit_vector);
            assert(0u32 | 0xef00_0000u32 == 0xef00_0000u32) by (bit_vector);
        }
        let svc_word = encode_a32_svc(SVC_LAZY_LINK);
        let ret_word = encode_a32_ret();
        let trap_word = encode_a32_trap();
        let mut cur: u64 = base as u64;
        while cur < end
            invariant
                mem.wf(),
                mem.allocator == old(mem).allocator,
                mem.bytes@.len() == b0.len(),
                b0 == old(mem).bytes@,
                es == 12 || es == 16,
                svc_word == 0xef00_0000u32,
                ret_word == 0xe12f_ff1eu32,
                trap_word == 0xe7ff_defeu32,
                base as u64 <= cur <= end,
                end == base as u64 + s.size as u64,
                base == s.addr,
                access_ok(b0, base, s.size as int),
                spec_setup_lazy(b0, *bin) == Ok::<Seq<u8>, LinkError>(
                    write_trap_slots(b0, base as int, end as int, es),
                ),
                (cur - base as u64) % (es as int) == 0,
                (end - cur) % (es as int) == 0,
                write_trap_slots(mem.bytes@, cur as int, end as int, es) == write_trap_slots(
                    b0,
                    base as int,
                    end as int,
                    es,
                ),
            decreases end - cur,
        {
            proof {
                lemma_mod_step(end - cur, es as int);
            }
            let slot = cur as u32;
            let ghost ba = mem.bytes@;
            mem.write(Ptr::<u32, true>::from_bits(slot), svc_word);
            proof {
                crate::mem::lemma_write_u32_is_write_word(ba, mem.bytes@, slot as int, svc_word);
            }
            let ghost bb = mem.bytes@;
            mem.write(Ptr::<u32, true>::from_bits(slot + 4), ret_word);
            proof {
                crate::mem::lemma_write_u32_is_write_word(bb, mem.bytes@, slot + 4, ret_word);
            }
            if es == 16 {
                let ghost bc = mem.bytes@;
                mem.write(Ptr::<u32, true>::from_bits(slot + 8), trap_word);
                proof {
                    crate::mem::lemma_write_u32_is_write_word(bc, mem.bytes@, slot + 8, trap_word);
                }
            }
            proof {
                assert(mem.bytes@ == write_trap_slot(ba, cur as int, es));
            }
            cur = cur + es as u64;
        }
        Ok(())
    }

    /// Link non-lazy symbols for a loaded binary: usually constants,
    /// classes and vtable pointers, which must be resolved upfront.
    /// Missing implementations are skipped rather than fatal — many such
    /// symbols sit on code paths the application never exercises, so the
    /// walk warns and continues, deferring failure to the point of use.
    /// `bin` is the binary being linked; `bins` the set its symbols may
    /// resolve against. See [spec_non_lazy].
    pub fn do_non_lazy_linking(
        &mut self,
        bin: &MachO,
        bins: &[MachO],
        mem: &mut Mem,
        objc: &ObjC,
        constants: &[Vec<(String, HostConstant<C>)>],
    ) -> (r: Result<(), LinkError>)
        requires
            old(mem).wf(),
        ensures
            final(mem).wf(),
            final(mem).allocator == old(mem).allocator,
            final(self).linked_host_functions == old(self).linked_host_functions,
            final(self).return_to_host_routine == old(self).return_to_host_routine,
            match spec_non_lazy(
                old(mem).bytes@,
                queue_view(old(self).constants_to_link_later@),
                *bin,
                bins@,
                *objc,
                constants@,
            ) {
                Ok((b2, q2)) => r == Ok::<(), LinkError>(()) && final(mem).bytes@ == b2
                    && queue_view(final(self).constants_to_link_later@) == q2,
                Err(e) => r == Err::<(), LinkError>(e),
            },
    {
        let n1 = bin.external_relocations.len();
        let mut i: usize = 0;
        while i < n1
            invariant
                n1 == bin.external_relocations@.len(),
                0 <= i <= n1,
                mem.wf(),
                mem.allocator == old(mem).allocator,
                *self == *old(self),
                apply_relocations(mem.bytes@, bin.external_relocations@, i as int, *objc)
                    == apply_relocations(old(mem).bytes@, bin.external_relocations@, 0, *objc),
            decreases n1 - i,
        {
            let entry = &bin.external_relocations[i];
            let addr = entry.0;
            let value: Option<u32> = match crate::text::str_strip_prefix(entry.1.as_str(), "_OBJC_CLASS_$_") {
                Some(rest) => objc.link_class(rest, false),
                None => match crate::text::str_strip_prefix(entry.1.as_str(), "_OBJC_METACLASS_$_") {
                    Some(rest) => objc.link_class(rest, true),
                    None => {
                        if crate::text::str_eq(entry.1.as_str(), "___CFConstantStringClassReference") {
                            Some(objc.constant_string_class)
                        } else {
                            None
                        }
                    },
                },
            };
            proof {
                assert(value == spec_reloc_value(*objc, bin.external_relocations@[i as int].1@));
            }
            match value {
                None => {},
                Some(v) => {
                    if !mem.check_access(addr, 4) {
                        return Err(LinkError::MemoryFault);
                    }
                    let ghost ba = mem.bytes@;
                    mem.write(Ptr::<u32, true>::from_bits(addr), v);
                    proof {
                        crate::mem::lemma_write_u32_is_write_word(ba, mem.bytes@, addr as int, v);
                    }
                },
            }
            i += 1;
        }
        let ptrs = match bin.get_section("__nl_symbol_ptr") {
            Some(s) => s,
            None => {
                return Ok(());
            },
        };
        let ghost si = find_section(bin.sections@, "__nl_symbol_ptr"@)->Some_0;
        proof {
            crate::mach_o::lemma_find_section_characterization(bin.sections@, "__nl_symbol_ptr"@);
        }
        let ghost s = bin.sections@[si];
        let info = match &ptrs.dyld_indirect_symbol_info {
            Some(info) => info,
            None => {
                return Err(LinkError::ConfigurationFault);
            },
        };
        if info.entry_size != 4 {
            return Err(LinkError::ConfigurationFault);
        }
        if ptrs.size % 4 != 0 {
            return Err(LinkError::ConfigurationFault);
        }
        let end2: u64 = (ptrs.addr as u64) + (ptrs.size as u64);
        if end2 > mem.bytes.len() as u64 {
            return Err(LinkError::MemoryFault);
        }
        let mut cur: u64 = ptrs.addr as u64;
        let mut i2: usize = 0;
        while cur < end2
            invariant
                mem.wf(),
                mem.allocator == old(mem).allocator,
                self.linked_host_functions == old(self).linked_host_functions,
                self.return_to_host_routine == old(self).return_to_host_routine,
                find_section(bin.sections@, "__nl_symbol_ptr"@) == Some(si),
                s == bin.sections@[si],
                s.dyld_indirect_symbol_info is Some,
                info == s.dyld_indirect_symbol_info->Some_0,
                info.entry_size == 4,
                s.size % 4 == 0,
                s.addr as u64 <= cur <= end2,
                end2 == s.addr as u64 + s.size as u64,
                end2 <= mem.bytes@.len(),
                cur == s.addr as u64 + 4 * (i2 as u64),
                (end2 - cur) % 4 == 0,
                apply_nl_pointers(
                    mem.bytes@,
                    queue_view(self.constants_to_link_later@),
                    info.indirect_undef_symbols@,
                    i2 as int,
                    cur as int,
                    end2 as int,
                    bins@,
                    constants@,
                ) == spec_non_lazy(
                    old(mem).bytes@,
                    queue_view(old(self).constants_to_link_later@),
                    *bin,
                    bins@,
                    *objc,
                    constants@,
                ),
            decreases end2 - cur,
        {
            if !(i2 < info.indirect_undef_symbols.len()) {
                return Err(LinkError::ConfigurationFault);
            }
            let addr32 = cur as u32;
            match &info.indirect_undef_symbols[i2] {
                None => {},
                Some(sym) => {
                    proof {
                        lemma_find_export_from_characterization(bins@, 0, sym@);
                    }
                    let nb = bins.len();
                    let mut export: Option<u32> = None;
                    let mut k: usize = 0;
                    while k < nb
                        invariant_except_break
                            export is None,
                            0 <= k <= nb,
                            forall|j: int| 0 <= j < k ==> (#[trigger] bins@[j]).spec_exported_symbol(sym@) is None,
                        invariant
                            nb == bins@.len(),
                        ensures
                            match export {
                                Some(v) => find_export_from(bins@, 0, sym@) is Some && Some(v) == bins@[
                                    find_export_from(bins@, 0, sym@)->Some_0
                                ].spec_exported_symbol(sym@),
                                None => forall|j: int| 0 <= j < nb
                                    ==> (#[trigger] bins@[j]).spec_exported_symbol(sym@) is None,
                            },
                        decreases nb - k,
                    {
                        match vstd::slice::slice_index_get(bins, k).exported_symbol(sym.as_str()) {
                            Some(a) => {
                                proof {
                                    lemma_find_export_from_characterization(bins@, 0, sym@);
                                    match find_export_from(bins@, 0, sym@) {
                                        Some(kk) => {
                                            if kk < k {
                                                assert(bins@[kk].spec_exported_symbol(sym@) is None);
                                            }
                                            if k < kk {
                                                assert(bins@[k as int].spec_exported_symbol(sym@) is None);
                                            }
                                            assert(kk == k);
                                        },
                                        None => {
                                            assert(bins@[k as int].spec_exported_symbol(sym@) is None);
                                        },
                                    }
                                }
                                export = Some(a);
                                break;
                            },
                            None => {},
                        }
                        k += 1;
                    }
                    proof {
                        lemma_find_export_from_characterization(bins@, 0, sym@);
                        if export is None && find_export_from(bins@, 0, sym@) is Some {
                            let kk = find_export_from(bins@, 0, sym@)->Some_0;
                            assert(bins@[kk].spec_exported_symbol(sym@) is None);
                        }
                    }
                    match export {
                        Some(v) => {
                            if !mem.check_access(addr32, 4) {
                                return Err(LinkError::MemoryFault);
                            }
                            let ghost ba = mem.bytes@;
                            mem.write(Ptr::<u32, true>::from_bits(addr32), v);
                            proof {
                                crate::mem::lemma_write_u32_is_write_word(ba, mem.bytes@, addr32 as int, v);
                            }
                        },
                        None => {
                            match search_lists(constants, sym.as_str()) {
                                Some(template) => {
                                    let t = template.clone();
                                    let ghost q0 = self.constants_to_link_later@;
                                    let cell: MutPtr<ConstVoidPtr> = Ptr::from_bits(addr32);
                                    self.constants_to_link_later.push((cell, t));
                                    proof {
                                        lemma_queue_view_push(q0, (cell, t));
                                    }
                                },
                                None => {},
                            }
                        },
                    }
                },
            }
            i2 += 1;
            cur = cur + 4;
        }
        Ok(())
    }

    /// Creates a guest function that will call the host function
    /// registered under `symbol`: a freshly allocated two-instruction
    /// trampoline that traps on a newly assigned id and returns. This
    /// serves "get proc address" requests. Repeated requests for one
    /// symbol each make a fresh trampoline and id: nothing is
    /// deduplicated or reclaimed, a deliberate small leak. An unknown
    /// symbol is a recoverable failure that changes nothing.
    /// Instruction-cache invalidation beyond the first word is the
    /// caller's responsibility before first execution.
    pub fn create_proc_address(
        &mut self,
        mem: &mut Mem,
        cpu: &mut Cpu,
        symbol: &str,
        functions: &[Vec<(String, F)>],
    ) -> (r: Result<GuestFunction, ()>)
        requires
            old(mem).wf(),
            old(mem).allocator.can_alloc(8),
            old(self).linked_host_functions@.len() + SVC_LINKED_FUNCTIONS_BASE < 0x100_0000,
        ensures
            final(mem).wf(),
            proc_address_relation(
                *old(self),
                *final(self),
                *old(mem),
                *final(mem),
                *old(cpu),
                *final(cpu),
                functions@,
                symbol@,
                r,
            ),
    {
        let f = match search_lists(functions, symbol) {
            Some(f) => *f,
            None => {
                return Err(());
            },
        };
        let idx32 = self.linked_host_functions.len() as u32;
        let svc = SVC_LINKED_FUNCTIONS_BASE + idx32;
        proof {
            assert(svc & 0xff00_0000 == 0) by (bit_vector)
                requires svc < 0x100_0000u32;
        }
        let function_ptr = mem.allocate(8);
        let base = function_ptr.to_bits();
        let ghost b0 = mem.bytes@;
        mem.write(Ptr::<u32, true>::from_bits(base), encode_a32_svc(svc));
        proof {
            crate::mem::lemma_write_u32_is_write_word(b0, mem.bytes@, base as int, svc | 0xef00_0000);
        }
        let ghost b1 = mem.bytes@;
        mem.write(Ptr::<u32, true>::from_bits(base + 4), encode_a32_ret());
        proof {
            crate::mem::lemma_write_u32_is_write_word(b1, mem.bytes@, base + 4, 0xe12f_ff1eu32);
        }
        self.linked_host_functions.push(f);
        cpu.invalidate_cache_range(base, 4);
        Ok(GuestFunction::from_addr_with_thumb_bit(base))
    }

    /// Drain the deferred-constant queue, materializing each queued
    /// constant and writing the resulting address into its recorded patch
    /// target; each entry is consumed exactly once. Custom constants need
    /// the embedder's own materialization routines, so their patch
    /// targets and tokens are handed back as jobs: the embedder runs each
    /// routine and writes the address it returns at the paired target.
    /// Runs once the full runtime environment exists; `strings` supplies
    /// the interned string objects. See [apply_late_constants].
    pub fn do_late_linking(&mut self, mem: &mut Mem, strings: &StaticStrings) -> (r: Result<
        Vec<(MutPtr<ConstVoidPtr>, C)>,
        LinkError,
    >)
        requires
            old(mem).wf(),
        ensures
            final(mem).wf(),
            final(self).linked_host_functions == old(self).linked_host_functions,
            final(self).return_to_host_routine == old(self).return_to_host_routine,
            match apply_late_constants(
                old(mem).bytes@,
                old(mem).allocator@,
                queue_view(old(self).constants_to_link_later@),
                0,
                Seq::<(u32, C)>::empty(),
                *strings,
            ) {
                Ok((b2, a2, jobs)) => r is Ok && final(mem).bytes@ == b2 && final(mem).allocator@ == a2
                    && queue_view(r->Ok_0@) == jobs && final(self).constants_to_link_later@.len() == 0,
                Err(e) => r == Err::<Vec<(MutPtr<ConstVoidPtr>, C)>, LinkError>(e),
            },
    {
        let ghost q = queue_view(old(self).constants_to_link_later@);
        let mut jobs: Vec<(MutPtr<ConstVoidPtr>, C)> = Vec::new();
        proof {
            assert(queue_view(jobs@) =~= Seq::<(u32, C)>::empty());
        }
        let n = self.constants_to_link_later.len();
        let mut i: usize = 0;
        while i < n
            invariant
                n == self.constants_to_link_later@.len(),
                0 <= i <= n,
                mem.wf(),
                self.constants_to_link_later == old(self).constants_to_link_later,
                self.linked_host_functions == old(self).linked_host_functions,
                self.return_to_host_routine == old(self).return_to_host_routine,
                q == queue_view(self.constants_to_link_later@),
                apply_late_constants(mem.bytes@, mem.allocator@, q, i as int, queue_view(jobs@), *strings)
                    == apply_late_constants(
                    old(mem).bytes@,
                    old(mem).allocator@,
                    q,
                    0,
                    Seq::<(u32, C)>::empty(),
                    *strings,
                ),
            decreases n - i,
        {
            let entry = &self.constants_to_link_later[i];
            let target: MutPtr<ConstVoidPtr> = entry.0;
            let value: Option<u32> = match &entry.1 {
                HostConstant::Custom(c) => {
                    let ghost j0 = jobs@;
                    jobs.push((target, *c));
                    proof {
                        lemma_queue_view_push(j0, (target, *c));
                    }
                    None
                },
                HostConstant::NSString(sstr) => {
                    match strings.lookup(sstr.as_str()) {
                        Some(saddr) => Some(saddr),
                        None => None,
                    }
                },
                HostConstant::NullPtr => Some(0),
            };
            match value {
                None => {},
                Some(v) => {
                    proof {
                        assert(q[i as int] == (target.addr(), self.constants_to_link_later@[i as int].1));
                        match q[i as int].1 {
                            HostConstant::Custom(c) => {
                                assert(false);
                            },
                            HostConstant::NSString(sstr) => {
                                assert(strings.spec_lookup(sstr@) == Some(v));
                            },
                            HostConstant::NullPtr => {
                                assert(v == 0);
                            },
                        }
                    }
                    if !mem.can_fit(4) {
                        proof {
                            assert(crate::mem::allocator::spec_alloc(mem.allocator@, 4) is None);
                            assert(apply_late_cell(mem.bytes@, mem.allocator@, q, i as int, queue_view(jobs@), *strings, target.addr(), v) == Err::<(Seq<u8>, crate::mem::allocator::AllocModel, Seq<(u32, C)>), LinkError>(LinkError::OutOfGuestMemory));
                            assert(apply_late_constants(mem.bytes@, mem.allocator@, q, i as int, queue_view(jobs@), *strings) == Err::<(Seq<u8>, crate::mem::allocator::AllocModel, Seq<(u32, C)>), LinkError>(LinkError::OutOfGuestMemory));
                        }
                        return Err(LinkError::OutOfGuestMemory);
                    }
                    if !mem.check_access(target.to_bits(), 4) {
                        proof {
                            crate::mem::allocator::lemma_spec_alloc_properties(mem.allocator@, 4);
                        }
                        return Err(LinkError::MemoryFault);
                    }
                    let cell = mem.allocate(4);
                    let ghost ba = mem.bytes@;
                    mem.write(Ptr::<u32, true>::from_bits(cell.to_bits()), v);
                    proof {
                        crate::mem::lemma_write_u32_is_write_word(ba, mem.bytes@, cell.addr() as int, v);
                    }
                    let ghost bb = mem.bytes@;
                    mem.write(Ptr::<u32, true>::from_bits(target.to_bits()), cell.to_bits());
                    proof {
                        crate::mem::lemma_write_u32_is_write_word(
                            bb,
                            mem.bytes@,
                            target.addr() as int,
                            cell.addr(),
                        );
                    }
                },
            }
            i += 1;
        }
        self.constants_to_link_later.clear();
        Ok(jobs)
    }

    /// Do the linking that happens right after the binaries are loaded:
    /// synthesize the return-to-host routine, then, for each binary in
    /// dependency order, install the lazy-linking stubs and only then
    /// link its non-lazy symbols — eager linking may reference
    /// identifiers that the stubs' subsystems register in between.
    pub fn do_initial_linking(
        &mut self,
        bins: &[MachO],
        mem: &mut Mem,
        objc: &ObjC,
        constants: &[Vec<(String, HostConstant<C>)>],
    ) -> (r: Result<(), LinkError>)
        requires
            old(mem).wf(),
            old(self).return_to_host_routine is None,
            old(mem).allocator.can_alloc(8),
        ensures
            final(mem).wf(),
            final(self).linked_host_functions == old(self).linked_host_functions,
            ({
                let (a1, rbase) = crate::mem::allocator::spec_alloc(old(mem).allocator@, 8)->Some_0;
                let routine_bytes = spec_write_word(
                    spec_write_word(old(mem).bytes@, rbase as int, 0xef00_0001u32),
                    rbase + 4,
                    0xe7ff_defeu32,
                );
                if rbase & 1 == 1 {
                    r == Err::<(), LinkError>(LinkError::ConfigurationFault)
                } else {
                    &&& final(self).return_to_host_routine == Some(
                        GuestFunction { addr_with_thumb_bit: rbase },
                    )
                    &&& final(mem).allocator@ == a1
                    &&& match spec_initial_bins(
                        routine_bytes,
                        queue_view(old(self).constants_to_link_later@),
                        bins@,
                        0,
                        *objc,
                        constants@,
                    ) {
                        Ok((b2, q2)) => r == Ok::<(), LinkError>(()) && final(mem).bytes@ == b2
                            && queue_view(final(self).constants_to_link_later@) == q2,
                        Err(e) => r == Err::<(), LinkError>(e),
                    }
                }
            }),
    {
        proof {
            assert(1u32 & 0xff00_0000u32 == 0u32) by (bit_vector);
            assert(1u32 | 0xef00_0000u32 == 0xef00_0001u32) by (bit_vector);
        }
        // synthesize the return-to-host routine: trap to host, then a
        // guard trap that must never run (the host resets the PC itself)
        let routine_ptr = mem.allocate(8);
        let rbase = routine_ptr.to_bits();
        if rbase & 1 == 1 {
            // the routine's address would carry the instruction-set mode bit
            return Err(LinkError::ConfigurationFault);
        }
        let ghost b0 = mem.bytes@;
        mem.write(Ptr::<u32, true>::from_bits(rbase), encode_a32_svc(SVC_RETURN_TO_HOST));
        proof {
            crate::mem::lemma_write_u32_is_write_word(b0, mem.bytes@, rbase as int, 0xef00_0001u32);
        }
        let ghost b1 = mem.bytes@;
        mem.write(Ptr::<u32, true>::from_bits(rbase + 4), encode_a32_trap());
        proof {
            crate::mem::lemma_write_u32_is_write_word(b1, mem.bytes@, rbase + 4, 0xe7ff_defeu32);
        }
        self.return_to_host_routine = Some(GuestFunction::from_addr_with_thumb_bit(rbase));
        let ghost br = mem.bytes@;
        let ghost alloc1 = mem.allocator;
        let n = bins.len();
        let mut i: usize = 0;
        while i < n
            invariant
                n == bins@.len(),
                0 <= i <= n,
                mem.wf(),
                mem.allocator == alloc1,
                crate::mem::allocator::spec_alloc(old(mem).allocator@, 8) == Some((alloc1@, rbase)),
                rbase & 1 != 1,
                br == spec_write_word(
                    spec_write_word(old(mem).bytes@, rbase as int, 0xef00_0001u32),
                    rbase + 4,
                    0xe7ff_defeu32,
                ),
                self.linked_host_functions == old(self).linked_host_functions,
                self.return_to_host_routine == Some(GuestFunction { addr_with_thumb_bit: rbase }),
                spec_initial_bins(
                    mem.bytes@,
                    queue_view(self.constants_to_link_later@),
                    bins@,
                    i as int,
                    *objc,
                    constants@,
                ) == spec_initial_bins(
                    br,
                    queue_view(old(self).constants_to_link_later@),
                    bins@,
                    0,
                    *objc,
                    constants@,
                ),
            decreases n - i,
        {
            let bin = vstd::slice::slice_index_get(bins, i);
            match self.setup_lazy_linking(bin, mem) {
                Ok(()) => {},
                Err(e) => {
                    return Err(e);
                },
            }
            match self.do_non_lazy_linking(bin, bins, mem, objc, constants) {
                Ok(()) => {},
                Err(e) => {
                    return Err(e);
                },
            }
            i += 1;
        }
        Ok(())
    }

    /// Service a lazy-link trap raised at `svc_pc`: find the stub slot
    /// there, resolve its symbol against the host-function registry and
    /// then every peer binary's exports, and patch the stub accordingly.
    /// See [lazy_link_relation] for the full contract.
    fn do_lazy_link(
        &mut self,
        bins: &[MachO],
        mem: &mut Mem,
        cpu: &mut Cpu,
        svc_pc: u32,
        functions: &[Vec<(String, F)>],
    ) -> (r: Result<Option<F>, LinkError>)
        requires
            old(mem).wf(),
            old(self).linked_host_functions@.len() + SVC_LINKED_FUNCTIONS_BASE < 0x100_0000,
        ensures
            final(mem).wf(),
            lazy_link_relation(
                *old(self),
                *final(self),
                *old(mem),
                *final(mem),
                *old(cpu),
                *final(cpu),
                bins@,
                functions@,
                svc_pc,
                r,
            ),
    {
        proof {
            lemma_find_stub_bin_characterization(bins@, svc_pc);
        }
        let n = bins.len();
        let mut k: usize = 0;
        let mut found: Option<usize> = None;
        while k < n
            invariant_except_break
                found is None,
            invariant
                n == bins@.len(),
                0 <= k <= n,
                forall|j: int| 0 <= j < k ==> !pc_in_stubs(#[trigger] bins@[j], svc_pc),
            ensures
                match found {
                    Some(i) => 0 <= i < n && pc_in_stubs(bins@[i as int], svc_pc)
                        && forall|j: int| 0 <= j < i ==> !pc_in_stubs(#[trigger] bins@[j], svc_pc),
                    None => forall|j: int| 0 <= j < n ==> !pc_in_stubs(#[trigger] bins@[j], svc_pc),
                },
            decreases n - k,
        {
            let bin = vstd::slice::slice_index_get(bins, k);
            let has = match get_stubs_section(bin) {
                Some(s) => s.addr <= svc_pc && svc_pc - s.addr < s.size,
                None => false,
            };
            if has {
                found = Some(k);
                break;
            }
            k += 1;
        }
        let bi = match found {
            Some(i) => i,
            None => {
                proof {
                    lemma_find_stub_bin_characterization(bins@, svc_pc);
                    if find_stub_bin(bins@, svc_pc) is Some {
                        let i = find_stub_bin(bins@, svc_pc)->Some_0;
                        assert(!pc_in_stubs(bins@[i], svc_pc));
                    }
                }
                return Err(LinkError::ConfigurationFault);
            },
        };
        proof {
            lemma_find_stub_bin_characterization(bins@, svc_pc);
            match find_stub_bin(bins@, svc_pc) {
                Some(i) => {
                    if i < bi {
                        assert(!pc_in_stubs(bins@[i], svc_pc));
                    }
                    if bi < i {
                        assert(!pc_in_stubs(bins@[bi as int], svc_pc));
                    }
                    assert(i == bi);
                },
                None => {
                    assert(!pc_in_stubs(bins@[bi as int], svc_pc));
                },
            }
        }
        let bin = vstd::slice::slice_index_get(bins, bi);
        let stubs = match get_stubs_section(bin) {
            Some(s) => s,
            None => {
                proof {
                    assert(false);
                }
                return Err(LinkError::ConfigurationFault);
            },
        };
        let ghost s = spec_stubs_section(bins@[bi as int])->Some_0;
        let info = match &stubs.dyld_indirect_symbol_info {
            Some(info) => info,
            None => {
                return Err(LinkError::ConfigurationFault);
            },
        };
        let es = info.entry_size;
        if !(es == 12 || es == 16) {
            return Err(LinkError::ConfigurationFault);
        }
        let offset = svc_pc - stubs.addr;
        if offset % es != 0 {
            return Err(LinkError::ConfigurationFault);
        }
        let idx = offset / es;
        if !((idx as usize) < info.indirect_undef_symbols.len()) {
            return Err(LinkError::ConfigurationFault);
        }
        let symbol = match &info.indirect_undef_symbols[idx as usize] {
            Some(symbol) => symbol,
            None => {
                return Err(LinkError::ConfigurationFault);
            },
        };
        proof {
            assert(stub_lookup_ok(s, svc_pc));
            assert(symbol@ == stub_symbol(s, svc_pc));
        }
        match search_lists(functions, symbol.as_str()) {
            Some(f) => {
                let f = *f;
                // resolve to a host implementation: rewrite the stub's
                // first instruction to a supervisor call on a fresh id
                if !mem.check_access(svc_pc, 8) {
                    return Err(LinkError::MemoryFault);
                }
                let ret_word: u32 = mem.read(Ptr::<u32, false>::from_bits(svc_pc + 4));
                if ret_word != 0xe12f_ff1e {
                    return Err(LinkError::ConfigurationFault);
                }
                let idx32 = self.linked_host_functions.len() as u32;
                let svc = SVC_LINKED_FUNCTIONS_BASE + idx32;
                proof {
                    assert(svc & 0xff00_0000 == 0) by (bit_vector)
                        requires svc < 0x100_0000u32;
                }
                let ghost b0 = mem.bytes@;
                mem.write(Ptr::<u32, true>::from_bits(svc_pc), encode_a32_svc(svc));
                proof {
                    crate::mem::lemma_write_u32_is_write_word(b0, mem.bytes@, svc_pc as int, svc | 0xef00_0000);
                }
                self.linked_host_functions.push(f);
                cpu.invalidate_cache_range(svc_pc, 4);
                Ok(Some(f))
            },
            None => {
                // resolve against every peer binary's exports
                proof {
                    lemma_find_export_from_characterization(bins@, 1, symbol@);
                }
                let mut k2: usize = 1;
                while k2 < n
                    invariant
                        n == bins@.len(),
                        1 <= k2,
                        *self == *old(self),
                        *mem == *old(mem),
                        *cpu == *old(cpu),
                        old(mem).wf(),
                        old(self).linked_host_functions@.len() + SVC_LINKED_FUNCTIONS_BASE < 0x100_0000,
                        0 <= bi < n,
                        find_stub_bin(bins@, svc_pc) == Some(bi as int),
                        spec_stubs_section(bins@[bi as int]) == Some(s),
                        stub_lookup_ok(s, svc_pc),
                        es == s.dyld_indirect_symbol_info->Some_0.entry_size,
                        es == 12 || es == 16,
                        symbol@ == stub_symbol(s, svc_pc),
                        lists_lookup(functions@, symbol@) is None,
                        forall|j: int| 1 <= j < k2 ==> (#[trigger] bins@[j]).spec_exported_symbol(symbol@) is None,
                    decreases n - k2,
                {
                    let peer = vstd::slice::slice_index_get(bins, k2);
                    match peer.exported_symbol(symbol.as_str()) {
                        Some(target) => {
                            proof {
                                lemma_find_export_from_characterization(bins@, 1, symbol@);
                                match find_export_from(bins@, 1, symbol@) {
                                    Some(i) => {
                                        if i < k2 {
                                            assert(bins@[i].spec_exported_symbol(symbol@) is None);
                                        }
                                        if k2 < i {
                                            assert(bins@[k2 as int].spec_exported_symbol(symbol@) is None);
                                        }
                                        assert(i == k2);
                                    },
                                    None => {
                                        assert(bins@[k2 as int].spec_exported_symbol(symbol@) is None);
                                    },
                                }
                            }
                            if !mem.check_access(svc_pc, es) {
                                return Err(LinkError::MemoryFault);
                            }
                            let word: u32 = mem.read(Ptr::<u32, false>::from_bits(svc_pc + (es - 4)));
                            let la: u32 = if es == 12 {
                                word
                            } else {
                                svc_pc.wrapping_add(word).wrapping_add(8)
                            };
                            if !mem.check_access(la, 4) {
                                return Err(LinkError::MemoryFault);
                            }
                            // restore the vendor template over the stub
                            let words = stub_instruction_words(es);
                            let ghost b0 = mem.bytes@;
                            mem.write(Ptr::<u32, true>::from_bits(svc_pc), words[0]);
                            proof {
                                crate::mem::lemma_write_u32_is_write_word(
                                    b0,
                                    mem.bytes@,
                                    svc_pc as int,
                                    stub_instructions(es)[0],
                                );
                            }
                            let ghost b1 = mem.bytes@;
                            mem.write(Ptr::<u32, true>::from_bits(svc_pc + 4), words[1]);
                            proof {
                                crate::mem::lemma_write_u32_is_write_word(
                                    b1,
                                    mem.bytes@,
                                    svc_pc + 4,
                                    stub_instructions(es)[1],
                                );
                            }
                            if es == 16 {
                                let ghost b2 = mem.bytes@;
                                mem.write(Ptr::<u32, true>::from_bits(svc_pc + 8), words[2]);
                                proof {
                                    crate::mem::lemma_write_u32_is_write_word(
                                        b2,
                                        mem.bytes@,
                                        svc_pc + 8,
                                        stub_instructions(es)[2],
                                    );
                                }
                            }
                            proof {
                                assert(mem.bytes@ == spec_write_template(b0, svc_pc as int, es));
                            }
                            cpu.invalidate_cache_range(svc_pc, es - 4);
                            // patch the table cell the restored stub reads
                            let ghost b3 = mem.bytes@;
                            mem.write(Ptr::<u32, true>::from_bits(la), target);
                            proof {
                                crate::mem::lemma_write_u32_is_write_word(b3, mem.bytes@, la as int, target);
                            }
                            return Ok(None);
                        },
                        None => {},
                    }
                    k2 += 1;
                }
                proof {
                    lemma_find_export_from_characterization(bins@, 1, symbol@);
                    if find_export_from(bins@, 1, symbol@) is Some {
                        let i = find_export_from(bins@, 1, symbol@)->Some_0;
                        assert(bins@[i].spec_exported_symbol(symbol@) is None);
                    }
                }
                Err(LinkError::UnresolvedSymbol(symbol.clone()))
            },
        }
    }

    /// Sets a primitive breakpoint at an instruction address by
    /// overwriting it with the reserved breakpoint SVC. The address must
    /// carry the instruction-set mode bit if needed. This must only be
    /// called before CPU execution has begun: it does not invalidate any
    /// instruction cache.
    pub fn set_breakpoint(&mut self, mem: &mut Mem, at: u32) -> (r: Result<(), LinkError>)
        requires
            old(mem).wf(),
        ensures
            final(mem).wf(),
            *final(self) == *old(self),
            final(mem).allocator == old(mem).allocator,
            ({
                let gf = GuestFunction { addr_with_thumb_bit: at };
                let width: int = if gf.spec_is_thumb() { 2 } else { 4 };
                &&& (r is Ok <==> access_ok(old(mem).bytes@, gf.spec_addr(), width))
                &&& (r is Err ==> r == Err::<(), LinkError>(LinkError::MemoryFault)
                    && final(mem).bytes@ == old(mem).bytes@)
                &&& (r is Ok ==> range_updated(
                    old(mem).bytes@,
                    final(mem).bytes@,
                    gf.spec_addr() as int,
                    if gf.spec_is_thumb() {
                        vstd::bytes::spec_u16_to_le_bytes(0xdf02u16)
                    } else {
                        vstd::bytes::spec_u32_to_le_bytes(0xef00_0002u32)
                    },
                ))
            }),
    {
        proof {
            assert((2u16 | 0xdf00u16) == 0xdf02u16) by (bit_vector);
            assert((2u32 | 0xef00_0000u32) == 0xef00_0002u32) by (bit_vector);
            assert(2u32 & 0xff00_0000u32 == 0u32) by (bit_vector);
        }
        let at = GuestFunction::from_addr_with_thumb_bit(at);
        if at.is_thumb() {
            let addr = at.addr_without_thumb_bit();
            if !mem.check_access(addr, 2) {
                return Err(LinkError::MemoryFault);
            }
            let ptr: MutPtr<u16> = Ptr::from_bits(addr);
            mem.write(ptr, encode_t32_svc(2));
        } else {
            let addr = at.addr_without_thumb_bit();
            if !mem.check_access(addr, 4) {
                return Err(LinkError::MemoryFault);
            }
            let ptr: MutPtr<u32> = Ptr::from_bits(addr);
            mem.write(ptr, encode_a32_svc(SVC_BREAKPOINT));
        }
        Ok(())
    }
}


/// A word wholly outside the rewritten instructions of one stub slot
/// reads back unchanged.
pub proof fn lemma_trap_slot_untouched(b: Seq<u8>, slot: int, es: u32, x: int)
    requires
        es == 12 || es == 16,
        0 <= slot,
        slot + es <= b.len(),
        0 <= x,
        x + 4 <= b.len(),
        x + 4 <= slot || slot + (es - 4) <= x,
    ensures
        word_at(write_trap_slot(b, slot, es), x) == word_at(b, x),
{
    let b1 = spec_write_word(b, slot, 0xef00_0000u32);
    let b2 = spec_write_word(b1, slot + 4, 0xe12f_ff1eu32);
    crate::mem::lemma_write_word_properties(b, slot, 0xef00_0000u32);
    crate::mem::lemma_write_word_properties(b1, slot + 4, 0xe12f_ff1eu32);
    crate::mem::lemma_word_at_untouched(b, slot, 0xef00_0000u32, x);
    crate::mem::lemma_word_at_untouched(b1, slot + 4, 0xe12f_ff1eu32, x);
    if es == 16 {
        crate::mem::lemma_write_word_properties(b2, slot + 8, 0xe7ff_defeu32);
        crate::mem::lemma_word_at_untouched(b2, slot + 8, 0xe7ff_defeu32, x);
    }
}

/// A word lying before the range a trap-rewriting pass covers reads back
/// unchanged.
pub proof fn lemma_trap_slots_untouched_before(b: Seq<u8>, cur: int, end: int, es: u32, x: int)
    requires
        es == 12 || es == 16,
        0 <= cur,
        end <= b.len(),
        0 <= x,
        x + 4 <= b.len(),
        x + 4 <= cur,
        (end - cur) % (es as int) == 0,
    ensures
        word_at(write_trap_slots(b, cur, end, es), x) == word_at(b, x),
    decreases end - cur,
{
    if cur < end {
        lemma_mod_step(end - cur, es as int);
        let b1 = write_trap_slot(b, cur, es);
        lemma_trap_slot_untouched(b, cur, es, x);
        crate::mem::lemma_write_word_properties(b, cur, 0xef00_0000u32);
        crate::mem::lemma_write_word_properties(
            spec_write_word(b, cur, 0xef00_0000u32),
            cur + 4,
            0xe12f_ff1eu32,
        );
        if es == 16 {
            crate::mem::lemma_write_word_properties(
                spec_write_word(spec_write_word(b, cur, 0xef00_0000u32), cur + 4, 0xe12f_ff1eu32),
                cur + 8,
                0xe7ff_defeu32,
            );
        }
        assert(b1.len() == b.len());
        lemma_trap_slots_untouched_before(b1, cur + es, end, es, x);
    }
}

/// After stub setup rewrites a table (see [spec_setup_lazy] and
/// [write_trap_slots]), every aligned slot is in transition-ready trap
/// form — a lazy-link supervisor call, a return, and (for the longer
/// slots) a guard trap — while the slot's trailing table word is exactly
/// what it was: the address or offset is kept in case the slot is later
/// linked to a real symbol.
pub proof fn lemma_trap_slots_form(b: Seq<u8>, a: int, end: int, es: u32, cur: int)
    requires
        es == 12 || es == 16,
        0 <= a,
        end <= b.len(),
        a <= cur < end,
        (cur - a) % (es as int) == 0,
        (end - a) % (es as int) == 0,
    ensures
        word_at(write_trap_slots(b, a, end, es), cur) == 0xef00_0000u32,
        word_at(write_trap_slots(b, a, end, es), cur + 4) == 0xe12f_ff1eu32,
        es == 16 ==> word_at(write_trap_slots(b, a, end, es), cur + 8) == 0xe7ff_defeu32,
        word_at(write_trap_slots(b, a, end, es), cur + (es - 4)) == word_at(b, cur + (es - 4)),
    decreases cur - a,
{
    lemma_mod_step(end - a, es as int);
    if cur > a {
        lemma_mod_step(cur - a, es as int);
        let b1 = write_trap_slot(b, a, es);
        crate::mem::lemma_write_word_properties(b, a, 0xef00_0000u32);
        crate::mem::lemma_write_word_properties(
            spec_write_word(b, a, 0xef00_0000u32),
            a + 4,
            0xe12f_ff1eu32,
        );
        if es == 16 {
            crate::mem::lemma_write_word_properties(
                spec_write_word(spec_write_word(b, a, 0xef00_0000u32), a + 4, 0xe12f_ff1eu32),
                a + 8,
                0xe7ff_defeu32,
            );
        }
        assert(b1.len() == b.len());
        lemma_trap_slots_form(b1, a + es, end, es, cur);
        lemma_trap_slot_untouched(b, a, es, cur + (es - 4));
    } else {
        // this is the first slot: its own words are written, and every
        // later slot's writes lie wholly past it
        let b1 = write_trap_slot(b, cur, es);
        let w1 = spec_write_word(b, cur, 0xef00_0000u32);
        let w2 = spec_write_word(w1, cur + 4, 0xe12f_ff1eu32);
        crate::mem::lemma_write_word_properties(b, cur, 0xef00_0000u32);
        crate::mem::lemma_write_word_properties(w1, cur + 4, 0xe12f_ff1eu32);
        crate::mem::lemma_word_at_untouched(w1, cur + 4, 0xe12f_ff1eu32, cur);
        if es == 16 {
            crate::mem::lemma_write_word_properties(w2, cur + 8, 0xe7ff_defeu32);
            crate::mem::lemma_word_at_untouched(w2, cur + 8, 0xe7ff_defeu32, cur);
            crate::mem::lemma_word_at_untouched(w2, cur + 8, 0xe7ff_defeu32, cur + 4);
        }
        lemma_trap_slot_untouched(b, cur, es, cur + (es - 4));
        lemma_trap_slots_untouched_before(b1, cur + es, end, es, cur);
        lemma_trap_slots_untouched_before(b1, cur + es, end, es, cur + 4);
        if es == 16 {
            lemma_trap_slots_untouched_before(b1, cur + es, end, es, cur + 8);
        }
        lemma_trap_slots_untouched_before(b1, cur + es, end, es, cur + (es - 4));
    }
}

/// After a lazy link resolves a stub to a host function (the host case
/// of [lazy_link_relation]): the stub's first instruction is a
/// supervisor call whose id is at least the per-function base and was
/// previously bound to nothing; the second instruction is unchanged; and
/// dispatching the new id (as [Dyld::get_svc_handler] does on a later
/// call) yields exactly the resolved function, with no further linker
/// involvement.
pub proof fn lemma_lazy_host_link<F, C>(
    d0: Dyld<F, C>,
    d1: Dyld<F, C>,
    b0: Seq<u8>,
    b1: Seq<u8>,
    pc: u32,
    f: F,
)
    requires
        d0.linked_host_functions@.len() + SVC_LINKED_FUNCTIONS_BASE < 0x100_0000,
        d1.linked_host_functions@ == d0.linked_host_functions@.push(f),
        access_ok(b0, pc, 8),
        b1 == spec_write_word(
            b0,
            pc as int,
            ((SVC_LINKED_FUNCTIONS_BASE + d0.linked_host_functions@.len()) as u32) | 0xef00_0000,
        ),
    ensures
        ({
            let svc = (SVC_LINKED_FUNCTIONS_BASE + d0.linked_host_functions@.len()) as u32;
            &&& svc >= SVC_LINKED_FUNCTIONS_BASE
            &&& svc_lookup(d0.linked_host_functions@, svc) is None
            &&& svc_lookup(d1.linked_host_functions@, svc) == Some(f)
            &&& word_at(b1, pc as int) == svc | 0xef00_0000
            &&& word_at(b1, pc + 4) == word_at(b0, pc + 4)
        }),
{
    let svc = (SVC_LINKED_FUNCTIONS_BASE + d0.linked_host_functions@.len()) as u32;
    crate::mem::lemma_write_word_properties(b0, pc as int, svc | 0xef00_0000);
    crate::mem::lemma_word_at_untouched(b0, pc as int, svc | 0xef00_0000, pc + 4);
}

/// After a lazy link resolves a stub to a peer binary's export at
/// address `target` (the guest case of [lazy_link_relation]): the stub is
/// back in its original vendor template, and the table cell the restored
/// stub reads — at the absolute address, or at the patched offset plus
/// the stub's own address plus its fixed eight-byte adjustment — holds
/// `target` exactly. (A malformed table pointer aimed back into the
/// stub's own code words is excluded: the final patch would clobber the
/// restored template.)
pub proof fn lemma_lazy_guest_link(b0: Seq<u8>, b1: Seq<u8>, pc: u32, es: u32, la: u32, target: u32)
    requires
        es == 12 || es == 16,
        access_ok(b0, pc, es as int),
        access_ok(b0, la, 4),
        la + 4 <= pc || pc + (es - 4) <= la,
        b1 == spec_write_word(spec_write_template(b0, pc as int, es), la as int, target),
    ensures
        word_at(b1, la as int) == target,
        word_at(b1, pc as int) == stub_instructions(es)[0],
        word_at(b1, pc + 4) == stub_instructions(es)[1],
        es == 16 ==> word_at(b1, pc + 8) == stub_instructions(es)[2],
{
    let t0 = spec_write_word(b0, pc as int, stub_instructions(es)[0]);
    let t1 = spec_write_word(t0, pc + 4, stub_instructions(es)[1]);
    let t2 = if es == 16 {
        spec_write_word(t1, pc + 8, stub_instructions(es)[2])
    } else {
        t1
    };
    crate::mem::lemma_write_word_properties(b0, pc as int, stub_instructions(es)[0]);
    crate::mem::lemma_write_word_properties(t0, pc + 4, stub_instructions(es)[1]);
    crate::mem::lemma_word_at_untouched(t0, pc + 4, stub_instructions(es)[1], pc as int);
    if es == 16 {
        crate::mem::lemma_write_word_properties(t1, pc + 8, stub_instructions(es)[2]);
        crate::mem::lemma_word_at_untouched(t1, pc + 8, stub_instructions(es)[2], pc as int);
        crate::mem::lemma_word_at_untouched(t1, pc + 8, stub_instructions(es)[2], pc + 4);
    }
    crate::mem::lemma_write_word_properties(t2, la as int, target);
    crate::mem::lemma_word_at_untouched(t2, la as int, target, pc as int);
    crate::mem::lemma_word_at_untouched(t2, la as int, target, pc + 4);
    if es == 16 {
        crate::mem::lemma_word_at_untouched(t2, la as int, target, pc + 8);
    }
}

/// Two successful trampoline requests for the same known symbol (see
/// [proc_address_relation]) give two different guest addresses backed by
/// two different trap ids; a request for an unknown symbol reports
/// failure and leaves the id counter — the linked-function list — as it
/// was.
pub proof fn lemma_proc_address_twice_distinct<F, C>(
    d0: Dyld<F, C>,
    d1: Dyld<F, C>,
    d2: Dyld<F, C>,
    m0: Mem,
    m1: Mem,
    m2: Mem,
    c0: Cpu,
    c1: Cpu,
    c2: Cpu,
    functions: Seq<Vec<(String, F)>>,
    symbol: Seq<char>,
    r1: Result<GuestFunction, ()>,
    r2: Result<GuestFunction, ()>,
)
    requires
        m0.allocator.wf(),
        lists_lookup(functions, symbol) is Some,
        proc_address_relation(d0, d1, m0, m1, c0, c1, functions, symbol, r1),
        proc_address_relation(d1, d2, m1, m2, c1, c2, functions, symbol, r2),
    ensures
        r1 is Ok && r2 is Ok,
        r1->Ok_0.addr_with_thumb_bit != r2->Ok_0.addr_with_thumb_bit,
        d1.linked_host_functions@.len() == d0.linked_host_functions@.len() + 1,
        d2.linked_host_functions@.len() == d0.linked_host_functions@.len() + 2,
{
    crate::mem::allocator::lemma_spec_alloc_properties(m0.allocator@, 8);
    crate::mem::allocator::lemma_consecutive_allocations_distinct(m0.allocator@, 8, 8);
}

/// The stub-table section of a binary, as [spec_stubs_section] says.
fn get_stubs_section<'a>(bin: &'a MachO) -> (r: Option<&'a Section>)
    ensures
        match spec_stubs_section(*bin) {
            Some(s) => r is Some && *r->Some_0 == s,
            None => r is None,
        },
{
    match bin.get_section("__symbol_stub4") {
        Some(s) => Some(s),
        None => bin.get_section("__picsymbolstub4"),
    }
}

} // verus!
