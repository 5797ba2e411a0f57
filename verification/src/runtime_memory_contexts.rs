//! Memory contexts of the program runtime, one per invocation frame.
//!
//! Each frame's context is either an ABIv1 context that owns its memory
//! mapping, a placeholder that has not been set up yet, or ABIv2, which shares
//! one mapping across all frames. In that shared mapping a window of regions
//! holds the payloads of the transaction's accounts; a frame's permission
//! update makes them writable or read-only for the current instruction and
//! remembers, for each region it changes, the flag from before its first
//! change, so that popping the frame restores the caller's permissions.
use vstd::prelude::*;

use solana_sbpf::{program::SBPFVersion, vm::Config};
use solana_transaction_context::{InstructionAccount, InstructionContext, TransactionContext};

use crate::permission_log::{
    first_logged, flag_at, flags_after, flags_rolled_back, frame_consistent, lemma_frame_begins,
    lemma_last_write, lemma_len_after_within, lemma_log_after, lemma_rollback_restores,
    lemma_unwritten, lemma_update_keeps_frame, lemma_write_step, log_after, logged, value_after,
    written,
};

verus! {

#[verifier::external_type_specification]
#[verifier::external_body]
pub struct ExTransactionContext<'ix_data>(TransactionContext<'ix_data>);

#[verifier::external_type_specification]
#[verifier::external_body]
pub struct ExInstructionContext<'a, 'ix_data>(InstructionContext<'a, 'ix_data>);

#[verifier::external_type_specification]
#[verifier::external_body]
pub struct ExInstructionAccount(InstructionAccount);

#[verifier::external_type_specification]
#[verifier::external_body]
pub struct ExConfig(Config);

#[verifier::external_type_specification]
#[verifier::external_body]
pub struct ExSBPFVersion(SBPFVersion);

/// The `index_in_transaction` field of an instruction account.
pub uninterp spec fn index_in_transaction_of(account: InstructionAccount) -> u16;

/// What `InstructionAccount::is_writable` returns for an account.
pub uninterp spec fn is_writable_of(account: InstructionAccount) -> bool;

/// The accounts of the instruction that is executing in a transaction
/// context, or `None` when no instruction is.
pub uninterp spec fn current_instruction_accounts_of(transaction_context: TransactionContext) -> Option<
    Seq<InstructionAccount>,
>;

/// The accounts that an instruction context lists.
pub uninterp spec fn instruction_accounts_of(context: InstructionContext) -> Seq<InstructionAccount>;

/// Calls `TransactionContext::get_current_instruction_context`, which reads
/// only the context's instruction stack and trace. The crate's source fails
/// only with `InstructionError::CallDepth`, when no instruction is
/// executing; that failure comes back as `None`. Otherwise the context that
/// comes back lists the accounts of the executing instruction.
#[verifier::external_body]
fn current_instruction_context<'a>(transaction_context: &'a TransactionContext) -> (context:
    Option<InstructionContext<'a, 'a>>)
    ensures
        context is Some <==> current_instruction_accounts_of(*transaction_context) is Some,
        context is Some ==> instruction_accounts_of(context.unwrap())
            == current_instruction_accounts_of(*transaction_context).unwrap(),
{
    transaction_context.get_current_instruction_context().ok()
}

/// Calls `InstructionContext::instruction_accounts`, the accounts of the
/// instruction in the order it lists them.
#[verifier::external_body]
fn instruction_accounts<'a>(context: &'a InstructionContext<'a, 'a>) -> (accounts:
    &'a [InstructionAccount])
    ensures
        accounts@ == instruction_accounts_of(*context),
{
    context.instruction_accounts()
}

/// Reads the public `index_in_transaction` field of an instruction account.
#[verifier::external_body]
fn account_index_in_transaction(account: &InstructionAccount) -> (index: u16)
    ensures
        index == index_in_transaction_of(*account),
{
    account.index_in_transaction
}

/// Calls `InstructionAccount::is_writable`, which reports whether the account
/// may become writable.
#[verifier::external_body]
fn account_is_writable(account: &InstructionAccount) -> (writable: bool)
    ensures
        writable == is_writable_of(*account),
{
    account.is_writable()
}

/// Calls `solana_sbpf::vm::Config::default`, the VM's default settings.
/// What they are is left unsaid here: the call takes no argument, so its
/// result has no name to be stated over.
#[verifier::external_body]
fn default_config() -> (config: Config) {
    Config::default()
}

/// Gives `solana_sbpf::program::SBPFVersion::Reserved`, the version kept for
/// future formats. Which variant it is is left unsaid: the type is declared
/// opaque here and the call takes no argument, so no name can stand for its
/// result.
#[verifier::external_body]
fn reserved_sbpf_version() -> (version: SBPFVersion) {
    SBPFVersion::Reserved
}

/// Reads `solana_transaction_context::MAX_ACCOUNTS_PER_TRANSACTION`, which the
/// crate defines as 256.
#[verifier::external_body]
fn max_accounts_per_transaction() -> (max: usize)
    ensures
        max == account_region_count(),
{
    solana_transaction_context::MAX_ACCOUNTS_PER_TRANSACTION
}

/// Index of the first account payload region in the ABIv2 layout.
///
/// Guest regions are `1 << 32` bytes each, and the version of
/// `solana-transaction-context` this library is built with places the
/// account payloads at `9 * GUEST_REGION_SIZE` (a private constant of that
/// crate, in `transaction_accounts.rs`), so they begin at region 9; later
/// versions move them to region 8. The index cannot be derived here, since no
/// published version offers `abiv2_region_index_from_vm_address` or exports
/// the layout, so it is written out and must follow the crate's layout.
pub const ACCOUNT_REGION_START: usize = 9;

/// How many account payload regions the ABIv2 layout has: one per account a
/// transaction may hold.
pub open spec fn account_region_count() -> usize {
    256
}

/// One past the last account payload region.
pub open spec fn account_region_end() -> int {
    ACCOUNT_REGION_START + account_region_count()
}

/// Errors of the memory contexts.
#[derive(Debug, Clone, Copy, PartialEq, Eq, Structural)]
pub enum MemoryContextError {
    /// No frame has been pushed, or no instruction is executing.
    CallDepth,
    /// The frame is not set up for the request, or the ABIv2 mapping lacks
    /// the account regions.
    ProgramEnvironmentSetupFailure,
    /// An ABIv1 context was asked of an ABIv2 frame.
    InvalidAccountData,
    /// An instruction names an account past the account regions.
    NotEnoughAccountKeys,
}

/// The heap allocator of a frame: its length and how much of it is in use.
#[derive(Debug)]
pub struct BpfAllocator {
    pub len: u64,
    pub pos: u64,
}

impl BpfAllocator {
    /// An allocator of `len` bytes with nothing allocated.
    pub fn new(len: u64) -> (allocator: Self)
        ensures
            allocator.len == len,
            allocator.pos == 0,
    {
        BpfAllocator { len, pos: 0 }
    }
}

/// A region of guest memory: where it starts in the guest address space and
/// whether the guest may write it.
#[derive(Debug, Clone, Copy, PartialEq, Eq, Structural)]
pub struct VmRegion {
    pub vm_addr: u64,
    pub writable: bool,
}

impl Default for VmRegion {
    fn default() -> (region: Self)
        ensures
            region.vm_addr == 0,
            !region.writable,
    {
        VmRegion { vm_addr: 0, writable: false }
    }
}

/// The regions that make up a guest's memory, with the settings of the VM
/// that runs in it and the SBPF version of the program it was made for.
#[derive(Debug)]
pub struct VmMapping {
    pub regions: Vec<VmRegion>,
    pub config: Config,
    pub sbpf_version: SBPFVersion,
}

impl VmMapping {
    /// A mapping of the given regions for a VM with `config` running a
    /// program of `sbpf_version`.
    pub fn new(regions: Vec<VmRegion>, config: Config, sbpf_version: SBPFVersion) -> (mapping:
        Self)
        ensures
            mapping.regions@ == regions@,
            mapping.config == config,
            mapping.sbpf_version == sbpf_version,
    {
        VmMapping { regions, config, sbpf_version }
    }
}

/// Where the serialized parts of an account sit in guest memory.
#[derive(Debug, Clone)]
pub struct SerializedAccountMetadata {
    /// Address of serialized account record.
    pub vm_addr: u64,
    pub original_data_len: usize,
    pub vm_data_addr: u64,
    pub vm_key_addr: u64,
    pub vm_lamports_addr: u64,
    pub vm_owner_addr: u64,
}

/// The memory state of one ABIv1 frame.
pub struct MemoryContext {
    pub allocator: BpfAllocator,
    pub accounts_metadata: Vec<SerializedAccountMetadata>,
    pub memory_mapping: VmMapping,
}

impl MemoryContext {
    /// The regions of this context's mapping.
    pub closed spec fn mapping_regions(&self) -> Seq<VmRegion> {
        self.memory_mapping.regions@
    }

    /// The VM settings of this context's mapping.
    pub closed spec fn mapping_config(&self) -> Config {
        self.memory_mapping.config
    }

    /// The SBPF version of this context's mapping.
    pub closed spec fn mapping_sbpf_version(&self) -> SBPFVersion {
        self.memory_mapping.sbpf_version
    }

    /// This context's heap allocator.
    pub closed spec fn heap(&self) -> BpfAllocator {
        self.allocator
    }

    /// Where this context serialized its accounts.
    pub closed spec fn metadata(&self) -> Seq<SerializedAccountMetadata> {
        self.accounts_metadata@
    }

    /// This context with its mapping replaced.
    pub closed spec fn with_mapping(self, memory_mapping: VmMapping) -> MemoryContext {
        MemoryContext { memory_mapping, ..self }
    }

    /// The heap, the account metadata and the mapping a context reports are
    /// its public fields, as they hold them.
    pub proof fn lemma_reports_its_fields(self)
        ensures
            self.heap() == self.allocator,
            self.metadata() == self.accounts_metadata@,
            self.mapping_regions() == self.memory_mapping.regions@,
            self.mapping_config() == self.memory_mapping.config,
            self.mapping_sbpf_version() == self.memory_mapping.sbpf_version,
    {
    }

    /// Replacing the mapping changes only the mapping.
    pub proof fn lemma_with_mapping(self, memory_mapping: VmMapping)
        ensures
            self.with_mapping(memory_mapping).mapping_regions() == memory_mapping.regions@,
            self.with_mapping(memory_mapping).mapping_config() == memory_mapping.config,
            self.with_mapping(memory_mapping).mapping_sbpf_version() == memory_mapping.sbpf_version,
            self.with_mapping(memory_mapping).heap() == self.heap(),
            self.with_mapping(memory_mapping).metadata() == self.metadata(),
    {
    }

    /// A context with the given heap, account metadata and mapping.
    pub fn new(
        allocator: BpfAllocator,
        accounts_metadata: Vec<SerializedAccountMetadata>,
        memory_mapping: VmMapping,
    ) -> (context: Self)
        ensures
            context.allocator == allocator,
            context.accounts_metadata@ == accounts_metadata@,
            context.memory_mapping == memory_mapping,
            context.heap() == allocator,
            context.metadata() == accounts_metadata@,
            context.mapping_regions() == memory_mapping.regions@,
            context.mapping_config() == memory_mapping.config,
            context.mapping_sbpf_version() == memory_mapping.sbpf_version,
    {
        MemoryContext { allocator, accounts_metadata, memory_mapping }
    }
}

/// What a frame's memory context is.
pub enum MemoryContextType {
    ABIv1(MemoryContext),
    Placeholder,
    ABIv2,
}

/// One region a frame has changed: its index within the account window and
/// its flag before the frame first changed it.
#[derive(Clone, Copy)]
struct WritableSnapshot {
    region_index: usize,
    previous_writable: bool,
}

/// The regions one frame has changed, each once, in the order it first
/// changed them.
struct FrameWritableSnapshot {
    entries: Vec<WritableSnapshot>,
}

/// The memory contexts of all frames, the shared ABIv2 mapping, and the
/// per-frame record of first changes to writable flags.
pub struct MemoryContexts {
    contexts: Vec<MemoryContextType>,
    abiv2_mappings: VmMapping,
    writable_snapshot_stack: Vec<FrameWritableSnapshot>,
}

/// The abstract state: the context of each frame, the regions, VM settings
/// and SBPF version of the shared ABIv2 mapping, and each frame's record of
/// first changes, as `(index within the account window, previous flag)`.
pub struct RuntimeView {
    pub contexts: Seq<MemoryContextType>,
    pub regions: Seq<VmRegion>,
    pub config: Config,
    pub sbpf_version: SBPFVersion,
    pub frames: Seq<Seq<(usize, bool)>>,
}

spec fn entry_view(entry: WritableSnapshot) -> (usize, bool) {
    (entry.region_index, entry.previous_writable)
}

spec fn frame_view(frame: FrameWritableSnapshot) -> Seq<(usize, bool)> {
    frame.entries@.map_values(|e: WritableSnapshot| entry_view(e))
}

impl View for MemoryContexts {
    type V = RuntimeView;

    closed spec fn view(&self) -> RuntimeView {
        RuntimeView {
            contexts: self.contexts@,
            regions: self.abiv2_mappings.regions@,
            config: self.abiv2_mappings.config,
            sbpf_version: self.abiv2_mappings.sbpf_version,
            frames: self.writable_snapshot_stack@.map_values(
                |f: FrameWritableSnapshot| frame_view(f),
            ),
        }
    }
}

/// The writable flags of the account window of `regions`.
pub open spec fn window_flags(regions: Seq<VmRegion>) -> Seq<bool> {
    Seq::new(
        account_region_count() as nat,
        |i: int| regions[ACCOUNT_REGION_START + i].writable,
    )
}

/// `regions` with `writes`, indexed within the account window, applied to the
/// writable flags of the window; writes past the window are dropped and the
/// guest addresses stay.
pub open spec fn with_window_writes(regions: Seq<VmRegion>, writes: Seq<(usize, bool)>) -> Seq<
    VmRegion,
> {
    Seq::new(
        regions.len(),
        |j: int|
            if ACCOUNT_REGION_START <= j < account_region_end() {
                VmRegion {
                    vm_addr: regions[j].vm_addr,
                    writable: value_after(
                        window_flags(regions),
                        writes,
                        j - ACCOUNT_REGION_START,
                    ),
                }
            } else {
                regions[j]
            },
    )
}

/// `regions` with `log`, indexed within the account window, rolled back:
/// each logged region of the window takes the flag of its first entry;
/// entries past the window are dropped and the guest addresses stay.
pub open spec fn with_window_rolled_back(regions: Seq<VmRegion>, log: Seq<(usize, bool)>) -> Seq<
    VmRegion,
> {
    Seq::new(
        regions.len(),
        |j: int|
            if ACCOUNT_REGION_START <= j < account_region_end() {
                VmRegion {
                    vm_addr: regions[j].vm_addr,
                    writable: first_logged(window_flags(regions), log, j - ACCOUNT_REGION_START),
                }
            } else {
                regions[j]
            },
    )
}

/// How many of `accounts`, from the front, name an account inside the window
/// before the first that does not.
pub open spec fn accepted_prefix(accounts: Seq<(u16, bool)>) -> nat
    decreases accounts.len(),
{
    if accounts.len() == 0 {
        0
    } else if accounts[0].0 >= account_region_count() {
        0
    } else {
        1 + accepted_prefix(accounts.drop_first())
    }
}

/// `(account index, writable)` pairs as window writes.
pub open spec fn as_writes(accounts: Seq<(u16, bool)>) -> Seq<(usize, bool)> {
    accounts.map_values(|a: (u16, bool)| (a.0 as usize, a.1))
}

/// `(index_in_transaction, is_writable)` of each instruction account.
pub open spec fn account_permissions(accounts: Seq<InstructionAccount>) -> Seq<(u16, bool)> {
    accounts.map_values(
        |a: InstructionAccount| (index_in_transaction_of(a), is_writable_of(a)),
    )
}

/// After a permission update for the accounts of an instruction succeeds,
/// the region of each account, at the last place the instruction lists it,
/// is writable exactly when that account is, whatever its index, 0
/// included.
pub proof fn lemma_update_grants_account_permissions(
    v: RuntimeView,
    accounts: Seq<InstructionAccount>,
    k: int,
)
    requires
        v.update_result(account_permissions(accounts)) is Ok,
        0 <= k < accounts.len(),
        forall|m: int|
            k < m < accounts.len() ==> index_in_transaction_of(#[trigger] accounts[m])
                != index_in_transaction_of(accounts[k]),
    ensures
        index_in_transaction_of(accounts[k]) < account_region_count(),
        v.updated(account_permissions(accounts)).regions[ACCOUNT_REGION_START
            + index_in_transaction_of(accounts[k])].writable == is_writable_of(accounts[k]),
{
    let perms = account_permissions(accounts);
    lemma_accepted_prefix_within(perms);
    assert(perms.take(accepted_prefix(perms) as int) =~= perms);
    let writes = as_writes(perms);
    let index = index_in_transaction_of(accounts[k]);
    assert(perms[k].0 < account_region_count());
    assert(writes[k] == (index as usize, is_writable_of(accounts[k])));
    assert forall|m: int| k < m < writes.len() implies writes[m].0 != writes[k].0 by {
        assert(index_in_transaction_of(accounts[m]) != index);
    }
    lemma_last_write(window_flags(v.regions), writes, k);
}

impl RuntimeView {
    /// The innermost frame's context.
    pub open spec fn top(self) -> MemoryContextType {
        self.contexts.last()
    }

    /// The innermost frame's context replaced by `context`.
    pub open spec fn with_top(self, context: MemoryContextType) -> RuntimeView {
        RuntimeView {
            contexts: self.contexts.update(self.contexts.len() - 1, context),
            ..self
        }
    }

    /// A new innermost frame with a placeholder context and no recorded
    /// flags.
    pub open spec fn pushed(self) -> RuntimeView {
        RuntimeView {
            contexts: self.contexts.push(MemoryContextType::Placeholder),
            frames: self.frames.push(Seq::empty()),
            ..self
        }
    }

    /// The innermost record removed and written back into the account
    /// window, each region taking the flag of its first entry; nothing is
    /// written back when the record is empty or the mapping lacks the window.
    pub open spec fn rolled_back(self) -> RuntimeView {
        if self.frames.len() == 0 {
            self
        } else {
            let entries = self.frames.last();
            RuntimeView {
                contexts: self.contexts,
                regions: if entries.len() == 0 || self.regions.len() < account_region_end() {
                    self.regions
                } else {
                    with_window_rolled_back(self.regions, entries)
                },
                frames: self.frames.drop_last(),
                ..self
            }
        }
    }

    /// The innermost frame closed: its flags rolled back and its context
    /// removed.
    pub open spec fn popped(self) -> RuntimeView {
        let r = self.rolled_back();
        RuntimeView {
            contexts: if r.contexts.len() == 0 {
                r.contexts
            } else {
                r.contexts.drop_last()
            },
            ..r
        }
    }

    /// The state after a permission update for the accounts
    /// `(index in the transaction, writable)` of the current instruction.
    /// Each account, in order, has its region's flag set, up to the first
    /// account past the window; a region changed for the first time in the
    /// innermost frame is added to its record with the flag from before.
    /// Nothing changes without a frame or without the window.
    pub open spec fn updated(self, accounts: Seq<(u16, bool)>) -> RuntimeView {
        if self.frames.len() == 0 || self.regions.len() < account_region_end() {
            self
        } else {
            let writes = as_writes(accounts.take(accepted_prefix(accounts) as int));
            RuntimeView {
                contexts: self.contexts,
                regions: with_window_writes(self.regions, writes),
                frames: self.frames.update(
                    self.frames.len() - 1,
                    log_after(window_flags(self.regions), self.frames.last(), writes),
                ),
                ..self
            }
        }
    }

    /// What a permission update for `accounts` returns: `CallDepth` with no
    /// frame, `ProgramEnvironmentSetupFailure` when the mapping lacks the
    /// account window, `NotEnoughAccountKeys` when an account lies past it.
    pub open spec fn update_result(self, accounts: Seq<(u16, bool)>) -> Result<
        (),
        MemoryContextError,
    > {
        if self.frames.len() == 0 {
            Err(MemoryContextError::CallDepth)
        } else if self.regions.len() < account_region_end() {
            Err(MemoryContextError::ProgramEnvironmentSetupFailure)
        } else if accepted_prefix(accounts) < accounts.len() {
            Err(MemoryContextError::NotEnoughAccountKeys)
        } else {
            Ok(())
        }
    }
}

/// The first account past the window ends the accepted prefix.
proof fn lemma_accepted_prefix(accounts: Seq<(u16, bool)>, k: int)
    requires
        0 <= k <= accounts.len(),
        forall|i: int| 0 <= i < k ==> #[trigger] accounts[i].0 < account_region_count(),
        k == accounts.len() || accounts[k].0 >= account_region_count(),
    ensures
        accepted_prefix(accounts) == k,
    decreases k,
{
    if k > 0 {
        let rest = accounts.drop_first();
        assert forall|i: int| 0 <= i < k - 1 implies #[trigger] rest[i].0 < account_region_count() by {
            assert(rest[i] == accounts[i + 1]);
        }
        lemma_accepted_prefix(rest, k - 1);
    }
}

/// One more window write, in terms of the regions.
proof fn lemma_window_step(regions: Seq<VmRegion>, writes: Seq<(usize, bool)>, k: int)
    requires
        0 <= k < writes.len(),
        regions.len() >= account_region_end(),
    ensures
        with_window_writes(regions, writes.take(k + 1)) == if writes[k].0 < account_region_count() {
            with_window_writes(regions, writes.take(k)).update(
                ACCOUNT_REGION_START + writes[k].0,
                VmRegion {
                    vm_addr: regions[ACCOUNT_REGION_START + writes[k].0].vm_addr,
                    writable: writes[k].1,
                },
            )
        } else {
            with_window_writes(regions, writes.take(k))
        },
{
    let before = with_window_writes(regions, writes.take(k));
    let after = with_window_writes(regions, writes.take(k + 1));
    assert forall|j: int| 0 <= j < regions.len() implies after[j] == if writes[k].0
        < account_region_count() {
        before.update(
            ACCOUNT_REGION_START + writes[k].0,
            VmRegion {
                vm_addr: regions[ACCOUNT_REGION_START + writes[k].0].vm_addr,
                writable: writes[k].1,
            },
        )
    } else {
        before
    }[j] by {
        if ACCOUNT_REGION_START <= j < account_region_end() {
            lemma_write_step(window_flags(regions), writes, k, j - ACCOUNT_REGION_START);
        }
    }
    if writes[k].0 < account_region_count() {
        assert(after =~= before.update(
            ACCOUNT_REGION_START + writes[k].0,
            VmRegion {
                vm_addr: regions[ACCOUNT_REGION_START + writes[k].0].vm_addr,
                writable: writes[k].1,
            },
        ));
    } else {
        assert(after =~= before);
    }
}

/// One more rollback entry, taken from the front, in terms of the regions.
proof fn lemma_window_rollback_step(regions: Seq<VmRegion>, log: Seq<(usize, bool)>, i: int)
    requires
        0 <= i < log.len(),
        regions.len() >= account_region_end(),
    ensures
        with_window_rolled_back(regions, log.subrange(i, log.len() as int)) == if log[i].0
            < account_region_count() {
            with_window_rolled_back(regions, log.subrange(i + 1, log.len() as int)).update(
                ACCOUNT_REGION_START + log[i].0,
                VmRegion {
                    vm_addr: regions[ACCOUNT_REGION_START + log[i].0].vm_addr,
                    writable: log[i].1,
                },
            )
        } else {
            with_window_rolled_back(regions, log.subrange(i + 1, log.len() as int))
        },
{
    let tail = log.subrange(i, log.len() as int);
    let rest = log.subrange(i + 1, log.len() as int);
    assert(tail.drop_first() =~= rest);
    assert(tail[0] == log[i]);
    let before = with_window_rolled_back(regions, rest);
    let after = with_window_rolled_back(regions, tail);
    if log[i].0 < account_region_count() {
        assert(after =~= before.update(
            ACCOUNT_REGION_START + log[i].0,
            VmRegion {
                vm_addr: regions[ACCOUNT_REGION_START + log[i].0].vm_addr,
                writable: log[i].1,
            },
        ));
    } else {
        assert(after =~= before);
    }
}

/// Whether a frame's record names the window region `index`.
fn frame_has(entries: &Vec<WritableSnapshot>, index: usize) -> (has: bool)
    ensures
        has == logged(entries@.map_values(|e: WritableSnapshot| entry_view(e)), index as int),
{
    let ghost log = entries@.map_values(|e: WritableSnapshot| entry_view(e));
    let mut k: usize = 0;
    while k < entries.len()
        invariant
            0 <= k <= entries@.len(),
            log == entries@.map_values(|e: WritableSnapshot| entry_view(e)),
            forall|i: int| 0 <= i < k ==> #[trigger] log[i].0 != index,
        decreases entries.len() - k,
    {
        if entries[k].region_index == index {
            assert(log[k as int].0 == index);
            return true;
        }
        k = k + 1;
    }
    proof {
        if logged(log, index as int) {
            let i = choose|i: int| 0 <= i < log.len() && #[trigger] log[i].0 == index;
            assert(log[i].0 != index);
        }
    }
    false
}

impl MemoryContexts {
    /// No frames, an ABIv2 mapping without regions for the VM's default
    /// settings and the reserved SBPF version, and no recorded flags.
    pub fn new() -> (contexts: Self)
        ensures
            contexts@.contexts == Seq::<MemoryContextType>::empty(),
            contexts@.regions == Seq::<VmRegion>::empty(),
            contexts@.frames == Seq::<Seq<(usize, bool)>>::empty(),
    {
        let contexts = MemoryContexts {
            contexts: Vec::new(),
            writable_snapshot_stack: Vec::new(),
            abiv2_mappings: VmMapping {
                regions: Vec::new(),
                config: default_config(),
                sbpf_version: reserved_sbpf_version(),
            },
        };
        assert(contexts@.frames =~= Seq::<Seq<(usize, bool)>>::empty());
        contexts
    }

    /// Makes the innermost frame an ABIv1 frame with `memory_context`.
    pub fn set_memory_context_abi_v1(&mut self, memory_context: MemoryContext) -> (result: Result<
        (),
        MemoryContextError,
    >)
        ensures
            old(self)@.contexts.len() == 0 ==> result == Err::<(), _>(MemoryContextError::CallDepth)
                && final(self)@ == old(self)@,
            old(self)@.contexts.len() > 0 ==> result == Ok::<(), MemoryContextError>(())
                && final(self)@ == old(self)@.with_top(MemoryContextType::ABIv1(memory_context)),
    {
        let n = self.contexts.len();
        if n == 0 {
            return Err(MemoryContextError::CallDepth);
        }
        self.contexts.set(n - 1, MemoryContextType::ABIv1(memory_context));
        Ok(())
    }

    /// The innermost frame's ABIv1 context.
    pub fn memory_context_abi_v1(&self) -> (result: Result<&MemoryContext, MemoryContextError>)
        ensures
            self@.contexts.len() == 0 ==> result == Err::<&MemoryContext, _>(
                MemoryContextError::CallDepth,
            ),
            self@.contexts.len() > 0 ==> match self@.top() {
                MemoryContextType::ABIv1(context) => result == Ok::<_, MemoryContextError>(
                    &context,
                ),
                MemoryContextType::Placeholder => result == Err::<&MemoryContext, _>(
                    MemoryContextError::ProgramEnvironmentSetupFailure,
                ),
                MemoryContextType::ABIv2 => result == Err::<&MemoryContext, _>(
                    MemoryContextError::InvalidAccountData,
                ),
            },
    {
        let n = self.contexts.len();
        if n == 0 {
            return Err(MemoryContextError::CallDepth);
        }
        match &self.contexts[n - 1] {
            MemoryContextType::ABIv1(context) => Ok(context),
            MemoryContextType::Placeholder => Err(
                MemoryContextError::ProgramEnvironmentSetupFailure,
            ),
            MemoryContextType::ABIv2 => Err(MemoryContextError::InvalidAccountData),
        }
    }

    /// Opens a frame with a placeholder context and no recorded flags.
    pub fn push_placeholder(&mut self)
        ensures
            final(self)@ == old(self)@.pushed(),
    {
        self.contexts.push(MemoryContextType::Placeholder);
        self.writable_snapshot_stack.push(FrameWritableSnapshot { entries: Vec::new() });
        proof {
            let frames = self.writable_snapshot_stack@.map_values(
                |f: FrameWritableSnapshot| frame_view(f),
            );
            assert(frame_view(self.writable_snapshot_stack@.last()) =~= Seq::<(usize, bool)>::empty());
            assert(frames =~= old(self)@.frames.push(Seq::empty()));
        }
    }

    /// Whether the ABIv2 mapping has any region.
    pub fn abi_v2_regions_exist(&self) -> (exist: bool)
        ensures
            exist == (self@.regions.len() > 0),
    {
        !self.abiv2_mappings.regions.is_empty()
    }

    /// Replaces the ABIv2 mapping by one of `regions` for a VM with the
    /// executable's `config`, running a program of its `sbpf_version`.
    pub fn create_abi_v2_mappings(
        &mut self,
        regions: Vec<VmRegion>,
        config: Config,
        sbpf_version: SBPFVersion,
    )
        ensures
            final(self)@.contexts == old(self)@.contexts,
            final(self)@.frames == old(self)@.frames,
            final(self)@.regions == regions@,
            final(self)@.config == config,
            final(self)@.sbpf_version == sbpf_version,
    {
        self.abiv2_mappings = VmMapping { regions, config, sbpf_version };
    }

    /// Makes the innermost frame an ABIv2 frame.
    pub fn set_abi_v2(&mut self) -> (result: Result<(), MemoryContextError>)
        ensures
            old(self)@.contexts.len() == 0 ==> result == Err::<(), _>(MemoryContextError::CallDepth)
                && final(self)@ == old(self)@,
            old(self)@.contexts.len() > 0 ==> result == Ok::<(), MemoryContextError>(())
                && final(self)@ == old(self)@.with_top(MemoryContextType::ABIv2),
    {
        let n = self.contexts.len();
        if n == 0 {
            return Err(MemoryContextError::CallDepth);
        }
        self.contexts.set(n - 1, MemoryContextType::ABIv2);
        Ok(())
    }

    /// Sets, for each `(account index, writable)` pair of the current
    /// instruction in order, the account region's writable flag, up to the
    /// first account past the account window. A region changed for the first
    /// time in the innermost frame is added to that frame's record with its
    /// flag from before. Nothing changes without a frame or without the
    /// window.
    pub fn apply_instruction_account_permissions(&mut self, accounts: &[(u16, bool)]) -> (result:
        Result<(), MemoryContextError>)
        ensures
            final(self)@ == old(self)@.updated(accounts@),
            result == old(self)@.update_result(accounts@),
    {
        let ghost start = self@;
        if self.writable_snapshot_stack.len() == 0 {
            return Err(MemoryContextError::CallDepth);
        }
        let count = max_accounts_per_transaction();
        if self.abiv2_mappings.regions.len() < ACCOUNT_REGION_START + count {
            return Err(MemoryContextError::ProgramEnvironmentSetupFailure);
        }
        let mut frame = self.writable_snapshot_stack.pop().unwrap();
        let ghost frames0 = self@.frames;
        let ghost log0 = frame_view(frame);
        proof {
            assert(frames0 =~= start.frames.drop_last());
            assert(log0 == start.frames.last());
        }
        let ghost regions0 = start.regions;
        let ghost flags0 = window_flags(regions0);
        let ghost writes = as_writes(accounts@);
        let mut k: usize = 0;
        while k < accounts.len()
            invariant
                0 <= k <= accounts@.len(),
                count == account_region_count(),
                regions0.len() >= account_region_end(),
                regions0 == start.regions,
                start == old(self)@,
                start.frames.len() > 0,
                frames0 == start.frames.drop_last(),
                log0 == start.frames.last(),
                flags0 == window_flags(regions0),
                writes == as_writes(accounts@),
                forall|i: int| 0 <= i < k ==> #[trigger] accounts@[i].0 < account_region_count(),
                self.abiv2_mappings.regions@ == with_window_writes(regions0, writes.take(k as int)),
                frame_view(frame) == log_after(flags0, log0, writes.take(k as int)),
                self.contexts@ == start.contexts,
                self@.config == start.config,
                self@.sbpf_version == start.sbpf_version,
                self.writable_snapshot_stack@.map_values(|f: FrameWritableSnapshot| frame_view(f))
                    == frames0,
            decreases accounts.len() - k,
        {
            let (index, writable) = accounts[k];
            let region_index = index as usize;
            if region_index >= count {
                proof {
                    lemma_accepted_prefix(accounts@, k as int);
                    assert(as_writes(accounts@.take(k as int)) =~= writes.take(k as int));
                }
                let ghost log = frame_view(frame);
                self.writable_snapshot_stack.push(frame);
                proof {
                    assert(self@.frames =~= frames0.push(log));
                    assert(start.updated(accounts@).frames =~= frames0.push(log));
                }
                return Err(MemoryContextError::NotEnoughAccountKeys);
            }
            let position = ACCOUNT_REGION_START + region_index;
            let previous = self.abiv2_mappings.regions[position];
            proof {
                assert(previous.writable == value_after(flags0, writes.take(k as int), region_index as int));
                assert(previous.vm_addr == regions0[position as int].vm_addr);
                lemma_log_after(flags0, log0, writes.take(k as int));
            }
            let ghost log_before = frame_view(frame);
            if !frame_has(&frame.entries, region_index) {
                proof {
                    let done = writes.take(k as int);
                    assert(!written(done, region_index as int));
                    assert forall|i: int| 0 <= i < done.len() implies done[i].0 != region_index by {
                        if done[i].0 == region_index {
                            assert(written(done, region_index as int));
                        }
                    }
                    lemma_unwritten(flags0, done, region_index as int);
                }
                frame.entries.push(WritableSnapshot { region_index, previous_writable: previous.writable });
                proof {
                    assert(frame_view(frame) =~= log_before.push(
                        (region_index, flag_at(flags0, region_index as int)),
                    ));
                }
            }
            self.abiv2_mappings.regions.set(
                position,
                VmRegion { vm_addr: previous.vm_addr, writable },
            );
            proof {
                lemma_window_step(regions0, writes, k as int);
                let next = writes.take(k + 1);
                assert(next.drop_last() =~= writes.take(k as int));
                assert(next.last() == writes[k as int]);
            }
            k = k + 1;
        }
        proof {
            lemma_accepted_prefix(accounts@, k as int);
            assert(accounts@.take(k as int) =~= accounts@);
            assert(writes.take(k as int) =~= writes);
        }
        let ghost log = frame_view(frame);
        self.writable_snapshot_stack.push(frame);
        proof {
            assert(start.updated(accounts@).frames =~= frames0.push(log));
            assert(self@.frames =~= frames0.push(log));
            assert(self@.regions =~= start.updated(accounts@).regions);
        }
        Ok(())
    }

    /// Puts the innermost frame's recorded flags back into the account
    /// window, each region taking the flag of its first entry, and drops the
    /// record.
    fn rollback_account_permissions(&mut self)
        ensures
            final(self)@ == old(self)@.rolled_back(),
    {
        let ghost start = self@;
        let snapshot_frame = match self.writable_snapshot_stack.pop() {
            Some(frame) => frame,
            None => {
                return ;
            },
        };
        let ghost frames0 = self@.frames;
        proof {
            assert(frames0 =~= start.frames.drop_last());
            assert(frame_view(snapshot_frame) == start.frames.last());
        }
        if snapshot_frame.entries.len() == 0 {
            return ;
        }
        let count = max_accounts_per_transaction();
        if self.abiv2_mappings.regions.len() < ACCOUNT_REGION_START + count {
            return ;
        }
        let ghost regions0 = start.regions;
        let ghost entries = frame_view(snapshot_frame);
        let n = snapshot_frame.entries.len();
        proof {
            assert(with_window_rolled_back(regions0, entries.subrange(n as int, n as int)) =~= regions0);
        }
        let mut i: usize = n;
        while i > 0
            invariant
                0 <= i <= n,
                n == entries.len(),
                count == account_region_count(),
                regions0.len() >= account_region_end(),
                entries == frame_view(snapshot_frame),
                self.abiv2_mappings.regions@ == with_window_rolled_back(
                    regions0,
                    entries.subrange(i as int, n as int),
                ),
                self.contexts@ == start.contexts,
                self@.config == start.config,
                self@.sbpf_version == start.sbpf_version,
                self@.frames == frames0,
            decreases i,
        {
            i = i - 1;
            let snapshot = snapshot_frame.entries[i];
            proof {
                assert(entry_view(snapshot) == entries[i as int]);
                lemma_window_rollback_step(regions0, entries, i as int);
            }
            if snapshot.region_index < count {
                let position = ACCOUNT_REGION_START + snapshot.region_index;
                let region = self.abiv2_mappings.regions[position];
                assert(region.vm_addr == regions0[position as int].vm_addr);
                self.abiv2_mappings.regions.set(
                    position,
                    VmRegion { vm_addr: region.vm_addr, writable: snapshot.previous_writable },
                );
            }
        }
        proof {
            assert(entries.subrange(0, n as int) =~= entries);
        }
    }

    /// Closes the innermost frame: rolls back the flags it recorded and
    /// removes its context.
    pub fn pop(&mut self)
        ensures
            final(self)@ == old(self)@.popped(),
    {
        self.rollback_account_permissions();
        let _ = self.contexts.pop();
    }

    /// Sets, for each account of the current instruction, its account
    /// region's writable flag, recording previous flags in the innermost
    /// frame (see `apply_instruction_account_permissions`). Fails with
    /// `CallDepth`, changing nothing, when no instruction is executing.
    pub fn update_abi_v2_account_permissions(&mut self, transaction_context: &TransactionContext) -> (result:
        Result<(), MemoryContextError>)
        ensures
            current_instruction_accounts_of(*transaction_context) is None ==> result == Err::<
                (),
                _,
            >(MemoryContextError::CallDepth) && final(self)@ == old(self)@,
            current_instruction_accounts_of(*transaction_context) is Some ==> final(self)@ == old(
                self,
            )@.updated(
                account_permissions(current_instruction_accounts_of(*transaction_context).unwrap()),
            ) && result == old(self)@.update_result(
                account_permissions(current_instruction_accounts_of(*transaction_context).unwrap()),
            ),
            result is Ok ==> current_instruction_accounts_of(*transaction_context) is Some
                && forall|k: int|
                #![trigger current_instruction_accounts_of(*transaction_context).unwrap()[k]]
                0 <= k < current_instruction_accounts_of(*transaction_context).unwrap().len() && (
                forall|m: int|
                    k < m < current_instruction_accounts_of(*transaction_context).unwrap().len()
                        ==> index_in_transaction_of(
                        #[trigger] current_instruction_accounts_of(*transaction_context).unwrap()[m],
                    ) != index_in_transaction_of(
                        current_instruction_accounts_of(*transaction_context).unwrap()[k],
                    )) ==> final(self)@.regions[ACCOUNT_REGION_START + index_in_transaction_of(
                    current_instruction_accounts_of(*transaction_context).unwrap()[k],
                )].writable == is_writable_of(
                    current_instruction_accounts_of(*transaction_context).unwrap()[k],
                ),
    {
        let current_instruction = match current_instruction_context(transaction_context) {
            Some(context) => context,
            None => {
                return Err(MemoryContextError::CallDepth);
            },
        };
        let instruction_accounts = instruction_accounts(&current_instruction);
        let mut permissions: Vec<(u16, bool)> = Vec::new();
        let mut i: usize = 0;
        while i < instruction_accounts.len()
            invariant
                0 <= i <= instruction_accounts@.len(),
                permissions@ == account_permissions(instruction_accounts@.take(i as int)),
            decreases instruction_accounts.len() - i,
        {
            let account = &instruction_accounts[i];
            let index = account_index_in_transaction(account);
            let writable = account_is_writable(account);
            permissions.push((index, writable));
            proof {
                assert(instruction_accounts@.take(i + 1) =~= instruction_accounts@.take(
                    i as int,
                ).push(instruction_accounts@[i as int]));
                assert(permissions@ =~= account_permissions(instruction_accounts@.take(i + 1)));
            }
            i = i + 1;
        }
        assert(instruction_accounts@.take(i as int) =~= instruction_accounts@);
        let ghost start = self@;
        let result = self.apply_instruction_account_permissions(permissions.as_slice());
        proof {
            let accounts = instruction_accounts@;
            if result is Ok {
                assert forall|k: int|
                    #![trigger accounts[k]]
                    0 <= k < accounts.len() && (forall|m: int|
                        k < m < accounts.len() ==> index_in_transaction_of(#[trigger] accounts[m])
                            != index_in_transaction_of(accounts[k])) implies self@.regions[
                    ACCOUNT_REGION_START + index_in_transaction_of(accounts[k])].writable
                    == is_writable_of(accounts[k]) by {
                    lemma_update_grants_account_permissions(start, accounts, k);
                }
            }
        }
        result
    }

    /// The innermost frame's ABIv1 context, for changing it in place.
    pub fn memory_context_mut_abi_v1(&mut self) -> (result: Result<
        &mut MemoryContext,
        MemoryContextError,
    >)
        ensures
            old(self)@.contexts.len() == 0 ==> (result matches Err(
                MemoryContextError::CallDepth,
            )) && final(self)@ == old(self)@,
            old(self)@.contexts.len() > 0 ==> match old(self)@.top() {
                MemoryContextType::ABIv1(context) => result is Ok && *result->Ok_0 == context
                    && final(self)@ == old(self)@.with_top(
                    MemoryContextType::ABIv1(*final(result->Ok_0)),
                ),
                MemoryContextType::Placeholder => (result matches Err(
                    MemoryContextError::ProgramEnvironmentSetupFailure,
                )) && final(self)@ == old(self)@,
                MemoryContextType::ABIv2 => (result matches Err(
                    MemoryContextError::ProgramEnvironmentSetupFailure,
                )) && final(self)@ == old(self)@,
            },
    {
        let n = self.contexts.len();
        if n == 0 {
            return Err(MemoryContextError::CallDepth);
        }
        match &self.contexts[n - 1] {
            MemoryContextType::ABIv1(_) => {},
            MemoryContextType::Placeholder => {
                return Err(MemoryContextError::ProgramEnvironmentSetupFailure);
            },
            MemoryContextType::ABIv2 => {
                return Err(MemoryContextError::ProgramEnvironmentSetupFailure);
            },
        }
        match &mut self.contexts[n - 1] {
            MemoryContextType::ABIv1(context) => Ok(context),
            _ => Err(MemoryContextError::ProgramEnvironmentSetupFailure),
        }
    }

    /// The mapping the innermost frame runs in: its own for ABIv1, the
    /// shared one for ABIv2.
    pub fn memory_mapping(&self) -> (result: Result<&VmMapping, MemoryContextError>)
        ensures
            self@.contexts.len() == 0 ==> (result matches Err(MemoryContextError::CallDepth)),
            self@.contexts.len() > 0 ==> match self@.top() {
                MemoryContextType::ABIv1(context) => result is Ok && result->Ok_0.regions@
                    == context.mapping_regions() && result->Ok_0.config == context.mapping_config()
                    && result->Ok_0.sbpf_version == context.mapping_sbpf_version(),
                MemoryContextType::Placeholder => (result matches Err(
                    MemoryContextError::ProgramEnvironmentSetupFailure,
                )),
                MemoryContextType::ABIv2 => result is Ok && result->Ok_0.regions@ == self@.regions
                    && result->Ok_0.config == self@.config && result->Ok_0.sbpf_version
                    == self@.sbpf_version,
            },
    {
        let n = self.contexts.len();
        if n == 0 {
            return Err(MemoryContextError::CallDepth);
        }
        match &self.contexts[n - 1] {
            MemoryContextType::ABIv1(context) => Ok(&context.memory_mapping),
            MemoryContextType::Placeholder => Err(
                MemoryContextError::ProgramEnvironmentSetupFailure,
            ),
            MemoryContextType::ABIv2 => Ok(&self.abiv2_mappings),
        }
    }

    /// The mapping the innermost frame runs in, for changing it in place.
    pub fn memory_mapping_mut(&mut self) -> (result: Result<&mut VmMapping, MemoryContextError>)
        ensures
            old(self)@.contexts.len() == 0 ==> (result matches Err(
                MemoryContextError::CallDepth,
            )) && final(self)@ == old(self)@,
            old(self)@.contexts.len() > 0 ==> match old(self)@.top() {
                MemoryContextType::ABIv1(context) => result is Ok && result->Ok_0.regions@
                    == context.mapping_regions() && result->Ok_0.config == context.mapping_config()
                    && result->Ok_0.sbpf_version == context.mapping_sbpf_version() && final(self)@
                    == old(self)@.with_top(
                    MemoryContextType::ABIv1(context.with_mapping(*final(result->Ok_0))),
                ),
                MemoryContextType::Placeholder => (result matches Err(
                    MemoryContextError::ProgramEnvironmentSetupFailure,
                )) && final(self)@ == old(self)@,
                MemoryContextType::ABIv2 => result is Ok && result->Ok_0.regions@
                    == old(self)@.regions && result->Ok_0.config == old(self)@.config
                    && result->Ok_0.sbpf_version == old(self)@.sbpf_version && final(self)@
                    == (RuntimeView {
                    contexts: old(self)@.contexts,
                    regions: final(result->Ok_0).regions@,
                    config: final(result->Ok_0).config,
                    sbpf_version: final(result->Ok_0).sbpf_version,
                    frames: old(self)@.frames,
                }),
            },
    {
        let n = self.contexts.len();
        if n == 0 {
            return Err(MemoryContextError::CallDepth);
        }
        match &self.contexts[n - 1] {
            MemoryContextType::ABIv1(_) => {},
            MemoryContextType::Placeholder => {
                return Err(MemoryContextError::ProgramEnvironmentSetupFailure);
            },
            MemoryContextType::ABIv2 => {
                return Ok(&mut self.abiv2_mappings);
            },
        }
        match &mut self.contexts[n - 1] {
            MemoryContextType::ABIv1(context) => Ok(&mut context.memory_mapping),
            _ => Err(MemoryContextError::ProgramEnvironmentSetupFailure),
        }
    }

    /// Replaces all frames by one ABIv1 frame that runs in `memory_mapping`,
    /// with an empty heap and no account metadata.
    pub fn mock_set_mapping_abi_v1(&mut self, memory_mapping: VmMapping)
        ensures
            final(self)@.contexts.len() == 1,
            final(self)@.contexts[0] matches MemoryContextType::ABIv1(context) && context.heap().len
                == 0 && context.heap().pos == 0 && context.metadata().len() == 0
                && context.mapping_regions() == memory_mapping.regions@
                && context.mapping_config() == memory_mapping.config
                && context.mapping_sbpf_version() == memory_mapping.sbpf_version,
            final(self)@.regions == old(self)@.regions,
            final(self)@.config == old(self)@.config,
            final(self)@.sbpf_version == old(self)@.sbpf_version,
            final(self)@.frames == old(self)@.frames,
    {
        let context = MemoryContext {
            allocator: BpfAllocator::new(0),
            accounts_metadata: Vec::new(),
            memory_mapping,
        };
        let mut contexts: Vec<MemoryContextType> = Vec::new();
        contexts.push(MemoryContextType::ABIv1(context));
        self.contexts = contexts;
    }
}

/// Opening a frame and closing it again, with nothing done in between,
/// leaves every context, region and record as it was.
pub proof fn lemma_push_pop_identity(v: RuntimeView)
    ensures
        v.pushed().popped() == v,
{
    let p = v.pushed();
    assert(p.frames.drop_last() =~= v.frames);
    assert(p.contexts.drop_last() =~= v.contexts);
}

/// Every account of the accepted prefix lies inside the window.
proof fn lemma_accepted_prefix_within(accounts: Seq<(u16, bool)>)
    ensures
        accepted_prefix(accounts) <= accounts.len(),
        forall|i: int|
            0 <= i < accepted_prefix(accounts) ==> #[trigger] accounts[i].0 < account_region_count(),
    decreases accounts.len(),
{
    if accounts.len() > 0 && accounts[0].0 < account_region_count() {
        let rest = accounts.drop_first();
        lemma_accepted_prefix_within(rest);
        assert forall|i: int| 0 <= i < accepted_prefix(accounts) implies #[trigger] accounts[i].0
            < account_region_count() by {
            if i > 0 {
                assert(accounts[i] == rest[i - 1]);
            }
        }
    }
}

/// `regions` differs from `start` at most in the writable flags of the
/// account window.
pub open spec fn layout_kept(start: Seq<VmRegion>, regions: Seq<VmRegion>) -> bool {
    &&& regions.len() == start.len()
    &&& forall|j: int|
        0 <= j < regions.len() ==> #[trigger] regions[j].vm_addr == start[j].vm_addr && (!(
        ACCOUNT_REGION_START <= j < account_region_end()) ==> regions[j] == start[j])
}

/// What runs inside a frame: a permission update for the accounts of an
/// instruction, a change of the frame's context, or a nested frame that runs
/// its own steps and is closed again.
pub enum RuntimeStep {
    Update(Seq<(u16, bool)>),
    SetTop(MemoryContextType),
    Call(Seq<RuntimeStep>),
}

/// The state after `steps`, in order.
pub open spec fn run_runtime_steps(v: RuntimeView, steps: Seq<RuntimeStep>) -> RuntimeView
    decreases steps,
{
    if steps.len() == 0 {
        v
    } else {
        let next = match steps[0] {
            RuntimeStep::Update(accounts) => v.updated(accounts),
            RuntimeStep::SetTop(context) => if v.contexts.len() > 0 {
                v.with_top(context)
            } else {
                v
            },
            RuntimeStep::Call(inner) => {
                proof {
                    assert(decreases_to!(steps => steps[0]));
                }
                run_runtime_steps(v.pushed(), inner).popped()
            },
        };
        run_runtime_steps(next, steps.drop_first())
    }
}

/// Rolling back a consistent frame whose regions kept their layout gives
/// back the regions from the frame's start.
proof fn lemma_window_restores(start: Seq<VmRegion>, regions: Seq<VmRegion>, log: Seq<(usize, bool)>)
    requires
        start.len() >= account_region_end(),
        layout_kept(start, regions),
        frame_consistent(window_flags(start), window_flags(regions), log),
    ensures
        (if log.len() == 0 {
            regions
        } else {
            with_window_rolled_back(regions, log)
        }) == start,
{
    let flags = window_flags(regions);
    lemma_rollback_restores(window_flags(start), flags, log);
    if log.len() == 0 {
        assert forall|j: int| 0 <= j < regions.len() implies #[trigger] regions[j] == start[j] by {
            assert(regions[j].vm_addr == start[j].vm_addr);
            if ACCOUNT_REGION_START <= j < account_region_end() {
                let x = j - ACCOUNT_REGION_START;
                assert(!logged(log, x));
                assert(flag_at(flags, x) == flag_at(window_flags(start), x));
                assert(flags[x] == regions[j].writable);
                assert(window_flags(start)[x] == start[j].writable);
            }
        }
        assert(regions =~= start);
    } else {
        let back = with_window_rolled_back(regions, log);
        assert forall|j: int| 0 <= j < back.len() implies #[trigger] back[j] == start[j] by {
            assert(regions[j].vm_addr == start[j].vm_addr);
            if ACCOUNT_REGION_START <= j < account_region_end() {
                let x = j - ACCOUNT_REGION_START;
                assert(flags_rolled_back(flags, log)[x] == first_logged(flags, log, x));
                assert(back[j].writable == first_logged(flags, log, x));
                assert(window_flags(start)[x] == start[j].writable);
            }
        }
        assert(back =~= start);
    }
}

/// Inside a frame that began with the regions `start`, any steps keep the
/// frame consistent, keep the layout, and leave the enclosing frames and
/// their contexts alone.
proof fn lemma_runtime_steps_keep_frame(v: RuntimeView, steps: Seq<RuntimeStep>, start: Seq<VmRegion>)
    requires
        v.frames.len() >= 1,
        v.contexts.len() >= 1,
        start.len() >= account_region_end(),
        layout_kept(start, v.regions),
        frame_consistent(window_flags(start), window_flags(v.regions), v.frames.last()),
    ensures
        run_runtime_steps(v, steps).frames.len() == v.frames.len(),
        run_runtime_steps(v, steps).frames.drop_last() == v.frames.drop_last(),
        run_runtime_steps(v, steps).contexts.len() == v.contexts.len(),
        run_runtime_steps(v, steps).contexts.drop_last() == v.contexts.drop_last(),
        run_runtime_steps(v, steps).config == v.config,
        run_runtime_steps(v, steps).sbpf_version == v.sbpf_version,
        layout_kept(start, run_runtime_steps(v, steps).regions),
        frame_consistent(
            window_flags(start),
            window_flags(run_runtime_steps(v, steps).regions),
            run_runtime_steps(v, steps).frames.last(),
        ),
    decreases steps,
{
    if steps.len() > 0 {
        let rest = steps.drop_first();
        match steps[0] {
            RuntimeStep::Update(accounts) => {
                let w = v.updated(accounts);
                let writes = as_writes(accounts.take(accepted_prefix(accounts) as int));
                let flags = window_flags(v.regions);
                lemma_accepted_prefix_within(accounts);
                assert forall|i: int| 0 <= i < writes.len() implies #[trigger] writes[i].0
                    < flags.len() by {
                    assert(accounts[i].0 < account_region_count());
                }
                lemma_len_after_within(flags.len(), writes);
                lemma_update_keeps_frame(window_flags(start), flags, v.frames.last(), writes);
                assert(window_flags(w.regions) =~= flags_after(flags, writes));
                assert(w.frames.drop_last() =~= v.frames.drop_last());
                assert forall|j: int| 0 <= j < w.regions.len() implies #[trigger] w.regions[j].vm_addr
                    == start[j].vm_addr && (!(ACCOUNT_REGION_START <= j < account_region_end())
                    ==> w.regions[j] == start[j]) by {
                    assert(v.regions[j].vm_addr == start[j].vm_addr);
                }
                lemma_runtime_steps_keep_frame(w, rest, start);
            },
            RuntimeStep::SetTop(context) => {
                let w = v.with_top(context);
                assert(w.contexts.drop_last() =~= v.contexts.drop_last());
                lemma_runtime_steps_keep_frame(w, rest, start);
            },
            RuntimeStep::Call(inner) => {
                assert(decreases_to!(steps => steps[0]));
                let w = v.pushed();
                lemma_frame_begins(window_flags(v.regions));
                assert(w.frames.last() == Seq::<(usize, bool)>::empty());
                lemma_runtime_steps_keep_frame(w, inner, v.regions);
                let r = run_runtime_steps(w, inner);
                lemma_window_restores(v.regions, r.regions, r.frames.last());
                assert(r.frames.drop_last() =~= v.frames);
                assert(r.contexts.drop_last() =~= v.contexts);
                assert(r.popped() == v);
                lemma_runtime_steps_keep_frame(v, rest, start);
            },
        }
    }
}

/// However the frame opened on top of `v` is used (permission updates that
/// may name an account any number of times, changes of its context, and
/// nested frames opened and closed again), closing it gives back exactly
/// `v`: no writable permission leaks out of it.
pub proof fn lemma_frame_restores(v: RuntimeView, steps: Seq<RuntimeStep>)
    requires
        v.regions.len() >= account_region_end(),
    ensures
        run_runtime_steps(v.pushed(), steps).popped() == v,
{
    let w = v.pushed();
    lemma_frame_begins(window_flags(v.regions));
    assert(w.frames.last() == Seq::<(usize, bool)>::empty());
    lemma_runtime_steps_keep_frame(w, steps, v.regions);
    let r = run_runtime_steps(w, steps);
    lemma_window_restores(v.regions, r.regions, r.frames.last());
    assert(r.frames.drop_last() =~= v.frames);
    assert(r.contexts.drop_last() =~= v.contexts);
}

/// A frame that makes accounts writable or read-only, naming an account any
/// number of times, and is then closed gives its caller the permissions,
/// contexts and records it had before.
pub proof fn lemma_nested_update_restores(v: RuntimeView, accounts: Seq<(u16, bool)>)
    ensures
        v.pushed().updated(accounts).popped() == v,
{
    if v.regions.len() >= account_region_end() {
        let steps = seq![RuntimeStep::Update(accounts)];
        lemma_frame_restores(v, steps);
        assert(steps.drop_first() =~= Seq::<RuntimeStep>::empty());
        reveal_with_fuel(run_runtime_steps, 2);
        assert(run_runtime_steps(v.pushed(), steps) == v.pushed().updated(accounts));
    } else {
        lemma_push_pop_identity(v);
    }
}

/// Every operation keeps the record stack aligned with the frames: when
/// there are as many records as contexts, there still are afterwards.
pub proof fn lemma_depth_alignment(
    v: RuntimeView,
    accounts: Seq<(u16, bool)>,
    context: MemoryContextType,
)
    requires
        v.contexts.len() == v.frames.len(),
    ensures
        v.pushed().contexts.len() == v.pushed().frames.len(),
        v.popped().contexts.len() == v.popped().frames.len(),
        v.updated(accounts).contexts.len() == v.updated(accounts).frames.len(),
        v.contexts.len() > 0 ==> v.with_top(context).contexts.len() == v.with_top(
            context,
        ).frames.len(),
{
}

} // verus!
