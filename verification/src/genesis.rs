//! The parameters of a network, and how they are read.
//!
//! The file that holds them gives numbers, hashes and addresses as text. The caller reads the file
//! into a [`RawGenesis`]; [`Genesis::from_raw`] checks it field by field.

use vstd::prelude::*;

use crate::bytes::{array_of, lemma_array_of, to_array};
use crate::crypto::{
    address_of_decoded, bech32_decoded, result_view, Address, CryptoError, CryptoErrorView,
};
use crate::listing::lemma_array_of_32;
use crate::text::{hex_decode, hex_error_text, parse_u128, parsed_u128, unhexed};

verus! {

/// The parameters that all nodes of a network share.
#[derive(Debug, Clone)]
pub struct Genesis {
    pub chain_id: String,
    pub genesis_time_unix: u64,
    pub subsidy_schedule: Vec<u128>,
    pub subsidy_period_blocks: u64,
    pub target_block_time_secs: u64,
    pub difficulty_adjustment_interval_blocks: u64,
    pub initial_target: [u8; 32],
    pub premine: Vec<(Address, u128)>,
}

/// [`Genesis`] with its lists as sequences.
#[verifier::ext_equal]
pub struct GenesisView {
    pub chain_id: Seq<char>,
    pub genesis_time_unix: u64,
    pub subsidy_schedule: Seq<u128>,
    pub subsidy_period_blocks: u64,
    pub target_block_time_secs: u64,
    pub difficulty_adjustment_interval_blocks: u64,
    pub initial_target: [u8; 32],
    pub premine: Seq<(Address, u128)>,
}

impl View for Genesis {
    type V = GenesisView;

    open spec fn view(&self) -> GenesisView {
        GenesisView {
            chain_id: self.chain_id@,
            genesis_time_unix: self.genesis_time_unix,
            subsidy_schedule: self.subsidy_schedule@,
            subsidy_period_blocks: self.subsidy_period_blocks,
            target_block_time_secs: self.target_block_time_secs,
            difficulty_adjustment_interval_blocks: self.difficulty_adjustment_interval_blocks,
            initial_target: self.initial_target,
            premine: self.premine@,
        }
    }
}

impl GenesisView {
    /// How long a retargeting period should take, as far as 64 bits can tell.
    pub open spec fn expected_timespan(self) -> nat {
        let product = self.target_block_time_secs * self.difficulty_adjustment_interval_blocks;
        if product <= u64::MAX {
            product as nat
        } else {
            u64::MAX as nat
        }
    }

    /// There is a subsidy, and its periods have blocks.
    pub open spec fn emits(self) -> bool {
        &&& self.subsidy_schedule.len() > 0
        &&& self.subsidy_period_blocks > 0
    }

    /// Where a retargeting period ends at a height, such a period should take some time.
    pub open spec fn retargets_at(self, height: int) -> bool {
        let interval = self.difficulty_adjustment_interval_blocks as int;
        0 < height && 0 < interval && height % interval == 0 ==> self.target_block_time_secs > 0
    }

    /// Where a retargeting period ends at any height up to one, such a period should take some
    /// time.
    pub open spec fn retargets_by(self, height: int) -> bool {
        0 < self.difficulty_adjustment_interval_blocks <= height ==> self.target_block_time_secs > 0
    }
}

/// Parameters that serve up to a height serve at every height up to it.
pub proof fn lemma_retargets_by(genesis: GenesisView, top: int, height: int)
    requires
        genesis.retargets_by(top),
        height <= top,
    ensures
        genesis.retargets_by(height),
        genesis.retargets_at(height),
{
    let interval = genesis.difficulty_adjustment_interval_blocks as int;
    if 0 < height < interval {
        vstd::arithmetic::div_mod::lemma_small_mod(height as nat, interval as nat);
    }
}

/// One entry of the initial distribution, as text.
#[derive(Debug, Clone)]
pub struct RawPremineEntry {
    pub address: String,
    pub amount: String,
}

/// [`RawPremineEntry`] with its texts as sequences.
pub struct RawPremineEntryView {
    pub address: Seq<char>,
    pub amount: Seq<char>,
}

impl View for RawPremineEntry {
    type V = RawPremineEntryView;

    open spec fn view(&self) -> RawPremineEntryView {
        RawPremineEntryView { address: self.address@, amount: self.amount@ }
    }
}

/// The parameters of a network as the file gives them.
#[derive(Debug, Clone)]
pub struct RawGenesis {
    pub chain_id: String,
    pub genesis_time: String,
    pub subsidy_schedule: Vec<String>,
    pub subsidy_period_blocks: u64,
    pub target_block_time_secs: u64,
    pub difficulty_adjustment_interval_blocks: u64,
    pub initial_target: String,
    pub premine: Vec<RawPremineEntry>,
}

/// [`RawGenesis`] with its texts and lists as sequences.
pub struct RawGenesisView {
    pub chain_id: Seq<char>,
    pub genesis_time: Seq<char>,
    pub subsidy_schedule: Seq<Seq<char>>,
    pub subsidy_period_blocks: u64,
    pub target_block_time_secs: u64,
    pub difficulty_adjustment_interval_blocks: u64,
    pub initial_target: Seq<char>,
    pub premine: Seq<RawPremineEntryView>,
}

pub open spec fn texts(list: Seq<String>) -> Seq<Seq<char>> {
    Seq::new(list.len(), |i: int| list[i]@)
}

pub open spec fn entry_views(list: Seq<RawPremineEntry>) -> Seq<RawPremineEntryView> {
    Seq::new(list.len(), |i: int| list[i]@)
}

impl View for RawGenesis {
    type V = RawGenesisView;

    open spec fn view(&self) -> RawGenesisView {
        RawGenesisView {
            chain_id: self.chain_id@,
            genesis_time: self.genesis_time@,
            subsidy_schedule: texts(self.subsidy_schedule@),
            subsidy_period_blocks: self.subsidy_period_blocks,
            target_block_time_secs: self.target_block_time_secs,
            difficulty_adjustment_interval_blocks: self.difficulty_adjustment_interval_blocks,
            initial_target: self.initial_target@,
            premine: entry_views(self.premine@),
        }
    }
}

/// What can be wrong with the parameters of a network.
#[derive(Debug, Clone, PartialEq, Eq)]
pub enum GenesisError {
    EmptySubsidySchedule,
    InvalidSubsidy { index: usize, value: String },
    InvalidTarget(String),
    InvalidTimestamp(String),
    InvalidPremineAddress(String, CryptoError),
    InvalidPremineAmount { address: String, value: String },
}

/// [`GenesisError`] with its texts as sequences.
#[verifier::ext_equal]
#[allow(inconsistent_fields)]
pub enum GenesisErrorView {
    EmptySubsidySchedule,
    InvalidSubsidy { index: int, value: Seq<char> },
    InvalidTarget(Seq<char>),
    InvalidTimestamp(Seq<char>),
    InvalidPremineAddress(Seq<char>, CryptoErrorView),
    InvalidPremineAmount { address: Seq<char>, value: Seq<char> },
}

impl View for GenesisError {
    type V = GenesisErrorView;

    open spec fn view(&self) -> GenesisErrorView {
        match *self {
            GenesisError::EmptySubsidySchedule => GenesisErrorView::EmptySubsidySchedule,
            GenesisError::InvalidSubsidy { index, value } => GenesisErrorView::InvalidSubsidy {
                index: index as int,
                value: value@,
            },
            GenesisError::InvalidTarget(t) => GenesisErrorView::InvalidTarget(t@),
            GenesisError::InvalidTimestamp(t) => GenesisErrorView::InvalidTimestamp(t@),
            GenesisError::InvalidPremineAddress(t, e) => GenesisErrorView::InvalidPremineAddress(
                t@,
                e@,
            ),
            GenesisError::InvalidPremineAmount { address, value } => {
                GenesisErrorView::InvalidPremineAmount { address: address@, value: value@ }
            },
        }
    }
}

/// The result of reading the parameters, over models.
pub open spec fn genesis_result(r: Result<Genesis, GenesisError>) -> Result<
    GenesisView,
    GenesisErrorView,
> {
    match r {
        Ok(genesis) => Ok(genesis@),
        Err(e) => Err(e@),
    }
}

/// The Unix time of an RFC 3339 date, in seconds, or what is wrong with the date.
pub uninterp spec fn rfc3339_timestamp(text: Seq<char>) -> Result<i64, Seq<char>>;

/// A timestamp with its error as a sequence.
pub open spec fn timestamp_view(r: Result<i64, String>) -> Result<i64, Seq<char>> {
    match r {
        Ok(seconds) => Ok(seconds),
        Err(message) => Err(message@),
    }
}

/// `DateTime::parse_from_rfc3339` of `chrono`, and `timestamp` of what it gives: the date in
/// seconds of Unix time, or the text of the error. Both depend on the text alone.
#[verifier::external_body]
fn parse_rfc3339(text: &str) -> (r: Result<i64, String>)
    ensures
        timestamp_view(r) == rfc3339_timestamp(text@),
{
    match chrono::DateTime::parse_from_rfc3339(text) {
        Ok(date) => Ok(date.timestamp()),
        Err(e) => Err(e.to_string()),
    }
}

/// The address that a text stands for.
pub open spec fn address_of_text(text: Seq<char>) -> Result<Address, CryptoErrorView> {
    address_of_decoded(bech32_decoded(text))
}

/// The subsidies, or the first text that is no subsidy.
pub open spec fn schedule_of(values: Seq<Seq<char>>) -> Result<Seq<u128>, GenesisErrorView>
    decreases values.len(),
{
    if values.len() == 0 {
        Ok(Seq::empty())
    } else {
        match schedule_of(values.drop_last()) {
            Err(e) => Err(e),
            Ok(done) => match parsed_u128(values.last()) {
                Some(v) => Ok(done.push(v)),
                None => Err(
                    GenesisErrorView::InvalidSubsidy {
                        index: values.len() - 1,
                        value: values.last(),
                    },
                ),
            },
        }
    }
}

/// The 32 bytes of a target given in hexadecimal.
pub open spec fn target_of(text: Seq<char>) -> Result<[u8; 32], GenesisErrorView> {
    match unhexed(text) {
        None => Err(GenesisErrorView::InvalidTarget(hex_error_text(text))),
        Some(bytes) => if bytes.len() == 32 {
            Ok(array_of(bytes))
        } else {
            Err(
                GenesisErrorView::InvalidTarget(
                    "tiene que ser de 32 bytes (64 caracteres hex)"@,
                ),
            )
        },
    }
}

/// The initial distribution, or the first entry that is wrong; an address is looked at before its
/// amount.
pub open spec fn premine_of(
    entries: Seq<RawPremineEntryView>,
    addresses: Seq<Result<Address, CryptoErrorView>>,
) -> Result<Seq<(Address, u128)>, GenesisErrorView>
    decreases entries.len(),
{
    if entries.len() == 0 {
        Ok(Seq::empty())
    } else {
        let entry = entries.last();
        match premine_of(entries.drop_last(), addresses.drop_last()) {
            Err(e) => Err(e),
            Ok(done) => match addresses.last() {
                Err(e) => Err(GenesisErrorView::InvalidPremineAddress(entry.address, e)),
                Ok(address) => match parsed_u128(entry.amount) {
                    Some(amount) => Ok(done.push((address, amount))),
                    None => Err(
                        GenesisErrorView::InvalidPremineAmount {
                            address: entry.address,
                            value: entry.amount,
                        },
                    ),
                },
            },
        }
    }
}

/// The parameters that a file gives, from what its date and its addresses were read as. The first
/// thing that is wrong decides: the date, the schedule, the target, the distribution.
pub open spec fn genesis_of(
    raw: RawGenesisView,
    time: Result<i64, Seq<char>>,
    addresses: Seq<Result<Address, CryptoErrorView>>,
) -> Result<GenesisView, GenesisErrorView> {
    match time {
        Err(message) => Err(GenesisErrorView::InvalidTimestamp(message)),
        Ok(seconds) => if seconds < 0 {
            Err(GenesisErrorView::InvalidTimestamp(raw.genesis_time))
        } else if raw.subsidy_schedule.len() == 0 {
            Err(GenesisErrorView::EmptySubsidySchedule)
        } else {
            match schedule_of(raw.subsidy_schedule) {
                Err(e) => Err(e),
                Ok(subsidy_schedule) => match target_of(raw.initial_target) {
                    Err(e) => Err(e),
                    Ok(initial_target) => match premine_of(raw.premine, addresses) {
                        Err(e) => Err(e),
                        Ok(premine) => Ok(
                            GenesisView {
                                chain_id: raw.chain_id,
                                genesis_time_unix: seconds as u64,
                                subsidy_schedule,
                                subsidy_period_blocks: raw.subsidy_period_blocks,
                                target_block_time_secs: raw.target_block_time_secs,
                                difficulty_adjustment_interval_blocks:
                                    raw.difficulty_adjustment_interval_blocks,
                                initial_target,
                                premine,
                            },
                        ),
                    },
                },
            }
        },
    }
}

/// What the addresses of the distribution are read as.
pub open spec fn premine_addresses(entries: Seq<RawPremineEntryView>) -> Seq<
    Result<Address, CryptoErrorView>,
> {
    Seq::new(entries.len(), |i: int| address_of_text(entries[i].address))
}

pub open spec fn address_views(list: Seq<Result<Address, CryptoError>>) -> Seq<
    Result<Address, CryptoErrorView>,
> {
    Seq::new(list.len(), |i: int| result_view(list[i]))
}

fn read_schedule(values: &Vec<String>) -> (r: Result<Vec<u128>, GenesisError>)
    ensures
        match r {
            Ok(list) => schedule_of(texts(values@)) == Ok::<_, GenesisErrorView>(list@),
            Err(e) => schedule_of(texts(values@)) == Err::<Seq<u128>, _>(e@),
        },
{
    let ghost all = texts(values@);
    let mut out: Vec<u128> = Vec::new();
    let mut i: usize = 0;
    assert(all.take(0) =~= Seq::<Seq<char>>::empty());
    while i < values.len()
        invariant
            i <= values.len(),
            all == texts(values@),
            schedule_of(all.take(i as int)) == Ok::<_, GenesisErrorView>(out@),
        decreases values.len() - i,
    {
        let ghost now = all.take(i + 1);
        assert(now.drop_last() =~= all.take(i as int));
        assert(now.last() == values@[i as int]@);
        match parse_u128(values[i].as_str()) {
            Some(v) => out.push(v),
            None => {
                proof {
                    lemma_schedule_error(all, i + 1);
                }
                return Err(GenesisError::InvalidSubsidy { index: i, value: values[i].clone() });
            },
        }
        i += 1;
    }
    assert(all.take(all.len() as int) =~= all);
    Ok(out)
}

proof fn lemma_schedule_error(values: Seq<Seq<char>>, k: int)
    requires
        0 <= k <= values.len(),
        schedule_of(values.take(k)) is Err,
    ensures
        schedule_of(values) == schedule_of(values.take(k)),
    decreases values.len() - k,
{
    if k < values.len() {
        assert(values.take(k + 1).drop_last() =~= values.take(k));
        lemma_schedule_error(values, k + 1);
    } else {
        assert(values.take(k) =~= values);
    }
}

fn read_target(text: &str) -> (r: Result<[u8; 32], GenesisError>)
    ensures
        result_view(r) == target_of(text@),
{
    let bytes = match hex_decode(text) {
        Ok(bytes) => bytes,
        Err(message) => return Err(GenesisError::InvalidTarget(message)),
    };
    if bytes.len() != 32 {
        return Err(
            GenesisError::InvalidTarget(
                "tiene que ser de 32 bytes (64 caracteres hex)".to_owned(),
            ),
        );
    }
    let target: [u8; 32] = to_array(bytes.as_slice());
    proof {
        lemma_array_of(target);
    }
    Ok(target)
}

proof fn lemma_premine_error(
    entries: Seq<RawPremineEntryView>,
    addresses: Seq<Result<Address, CryptoErrorView>>,
    k: int,
)
    requires
        0 <= k <= entries.len(),
        entries.len() == addresses.len(),
        premine_of(entries.take(k), addresses.take(k)) is Err,
    ensures
        premine_of(entries, addresses) == premine_of(entries.take(k), addresses.take(k)),
    decreases entries.len() - k,
{
    if k < entries.len() {
        assert(entries.take(k + 1).drop_last() =~= entries.take(k));
        assert(addresses.take(k + 1).drop_last() =~= addresses.take(k));
        lemma_premine_error(entries, addresses, k + 1);
    } else {
        assert(entries.take(k) =~= entries);
        assert(addresses.take(k) =~= addresses);
    }
}

fn copy_error(e: &CryptoError) -> (r: CryptoError)
    ensures
        r@ == e@,
{
    match e {
        CryptoError::InvalidSignature => CryptoError::InvalidSignature,
        CryptoError::InvalidPublicKeyLength => CryptoError::InvalidPublicKeyLength,
        CryptoError::AddressDecode(t) => CryptoError::AddressDecode(t.clone()),
        CryptoError::UnexpectedHrp { expected, found } => CryptoError::UnexpectedHrp {
            expected: expected.clone(),
            found: found.clone(),
        },
    }
}

fn read_premine(
    entries: &Vec<RawPremineEntry>,
    addresses: &Vec<Result<Address, CryptoError>>,
) -> (r: Result<Vec<(Address, u128)>, GenesisError>)
    requires
        addresses@.len() == entries@.len(),
    ensures
        match r {
            Ok(list) => premine_of(entry_views(entries@), address_views(addresses@)) == Ok::<
                _,
                GenesisErrorView,
            >(list@),
            Err(e) => premine_of(entry_views(entries@), address_views(addresses@)) == Err::<
                Seq<(Address, u128)>,
                _,
            >(e@),
        },
{
    let ghost all = entry_views(entries@);
    let ghost read = address_views(addresses@);
    let mut out: Vec<(Address, u128)> = Vec::new();
    let mut i: usize = 0;
    assert(all.take(0) =~= Seq::<RawPremineEntryView>::empty());
    while i < entries.len()
        invariant
            i <= entries.len(),
            addresses@.len() == entries@.len(),
            all == entry_views(entries@),
            read == address_views(addresses@),
            premine_of(all.take(i as int), read.take(i as int)) == Ok::<_, GenesisErrorView>(out@),
        decreases entries.len() - i,
    {
        let entry = &entries[i];
        proof {
            assert(all.take(i + 1).drop_last() =~= all.take(i as int));
            assert(read.take(i + 1).drop_last() =~= read.take(i as int));
            assert(all.take(i + 1).last() == entry@);
            assert(read.take(i + 1).last() == result_view(addresses@[i as int]));
        }
        let address: Address = match &addresses[i] {
            Ok(address) => *address,
            Err(e) => {
                proof {
                    lemma_premine_error(all, read, i + 1);
                }
                return Err(
                    GenesisError::InvalidPremineAddress(entry.address.clone(), copy_error(e)),
                );
            },
        };
        match parse_u128(entry.amount.as_str()) {
            Some(amount) => out.push((address, amount)),
            None => {
                proof {
                    lemma_premine_error(all, read, i + 1);
                }
                return Err(
                    GenesisError::InvalidPremineAmount {
                        address: entry.address.clone(),
                        value: entry.amount.clone(),
                    },
                );
            },
        }
        i += 1;
    }
    assert(all.take(all.len() as int) =~= all);
    assert(read.take(read.len() as int) =~= read);
    Ok(out)
}

impl Genesis {
    /// The parameters that a file gives, from what its date and its addresses were read as.
    pub fn assemble(
        raw: RawGenesis,
        time: Result<i64, String>,
        addresses: Vec<Result<Address, CryptoError>>,
    ) -> (r: Result<Genesis, GenesisError>)
        requires
            addresses@.len() == raw.premine@.len(),
        ensures
            genesis_result(r) == genesis_of(
                raw@,
                timestamp_view(time),
                address_views(addresses@),
            ),
    {
        let seconds: i64 = match time {
            Ok(seconds) => seconds,
            Err(message) => return Err(GenesisError::InvalidTimestamp(message)),
        };
        if seconds < 0 {
            return Err(GenesisError::InvalidTimestamp(raw.genesis_time));
        }
        if raw.subsidy_schedule.len() == 0 {
            return Err(GenesisError::EmptySubsidySchedule);
        }
        let subsidy_schedule = match read_schedule(&raw.subsidy_schedule) {
            Ok(list) => list,
            Err(e) => return Err(e),
        };
        let initial_target = match read_target(raw.initial_target.as_str()) {
            Ok(target) => target,
            Err(e) => return Err(e),
        };
        let premine = match read_premine(&raw.premine, &addresses) {
            Ok(list) => list,
            Err(e) => return Err(e),
        };
        Ok(
            Genesis {
                chain_id: raw.chain_id,
                genesis_time_unix: seconds as u64,
                subsidy_schedule,
                subsidy_period_blocks: raw.subsidy_period_blocks,
                target_block_time_secs: raw.target_block_time_secs,
                difficulty_adjustment_interval_blocks: raw.difficulty_adjustment_interval_blocks,
                initial_target,
                premine,
            },
        )
    }

    /// The parameters that a file gives, or the first thing that is wrong with them.
    pub fn from_raw(raw: RawGenesis) -> (r: Result<Genesis, GenesisError>)
        ensures
            genesis_result(r) == genesis_of(
                raw@,
                rfc3339_timestamp(raw.genesis_time@),
                premine_addresses(raw@.premine),
            ),
    {
        let time = parse_rfc3339(raw.genesis_time.as_str());
        let mut addresses: Vec<Result<Address, CryptoError>> = Vec::new();
        let mut i: usize = 0;
        while i < raw.premine.len()
            invariant
                i <= raw.premine.len(),
                addresses@.len() == i,
                forall|j: int|
                    0 <= j < i ==> result_view(#[trigger] addresses@[j]) == address_of_text(
                        raw.premine@[j].address@,
                    ),
            decreases raw.premine.len() - i,
        {
            addresses.push(Address::from_bech32(raw.premine[i].address.as_str()));
            i += 1;
        }
        assert(address_views(addresses@) =~= premine_addresses(raw@.premine));
        Genesis::assemble(raw, time, addresses)
    }

    /// Whether there is a subsidy whose periods have blocks.
    pub fn can_emit(&self) -> (r: bool)
        ensures
            r == self@.emits(),
    {
        self.subsidy_schedule.len() > 0 && self.subsidy_period_blocks > 0
    }

    /// Whether every retargeting period that ends at a height up to this one should take some
    /// time.
    pub fn can_retarget_by(&self, height: u64) -> (r: bool)
        ensures
            r == self@.retargets_by(height as int),
    {
        self.difficulty_adjustment_interval_blocks == 0
            || self.difficulty_adjustment_interval_blocks > height || self.target_block_time_secs > 0
    }

    /// How long a retargeting period should take.
    pub fn timespan(&self) -> (r: u64)
        ensures
            r as nat == self@.expected_timespan(),
    {
        let (time, interval): (u64, u64) = (
            self.target_block_time_secs,
            self.difficulty_adjustment_interval_blocks,
        );
        match time.checked_mul(interval) {
            Some(product) => product,
            None => u64::MAX,
        }
    }
}

/// Parameters that were read have a subsidy, and every field of theirs is what its text stands
/// for.
pub proof fn read_parameters_match_the_file(
    raw: RawGenesisView,
    time: Result<i64, Seq<char>>,
    addresses: Seq<Result<Address, CryptoErrorView>>,
)
    requires
        addresses.len() == raw.premine.len(),
        genesis_of(raw, time, addresses) is Ok,
    ensures
        ({
            let genesis = genesis_of(raw, time, addresses)->Ok_0;
            &&& genesis.chain_id == raw.chain_id
            &&& time == Ok::<i64, Seq<char>>(genesis.genesis_time_unix as i64)
            &&& genesis.subsidy_period_blocks == raw.subsidy_period_blocks
            &&& genesis.target_block_time_secs == raw.target_block_time_secs
            &&& genesis.difficulty_adjustment_interval_blocks
                == raw.difficulty_adjustment_interval_blocks
            &&& unhexed(raw.initial_target) == Some(genesis.initial_target@)
            &&& genesis.subsidy_schedule.len() == raw.subsidy_schedule.len() > 0
            &&& forall|i: int|
                0 <= i < raw.subsidy_schedule.len() ==> parsed_u128(
                    #[trigger] raw.subsidy_schedule[i],
                ) == Some(genesis.subsidy_schedule[i])
            &&& genesis.premine.len() == raw.premine.len()
            &&& forall|i: int|
                0 <= i < raw.premine.len() ==> addresses[i] == Ok::<_, CryptoErrorView>(
                    (#[trigger] genesis.premine[i]).0,
                ) && parsed_u128(raw.premine[i].amount) == Some(genesis.premine[i].1)
        }),
{
    lemma_schedule_matches(raw.subsidy_schedule);
    lemma_premine_matches(raw.premine, addresses);
    lemma_array_of_32(unhexed(raw.initial_target)->0);
}

/// A file is read exactly if its date is not before 1970, it has a subsidy, every subsidy and
/// every amount of the distribution is a number below 2^128, the target is 32 bytes in
/// hexadecimal, and every address of the distribution is one.
pub proof fn sound_file_is_read(
    raw: RawGenesisView,
    time: Result<i64, Seq<char>>,
    addresses: Seq<Result<Address, CryptoErrorView>>,
)
    requires
        addresses.len() == raw.premine.len(),
    ensures
        genesis_of(raw, time, addresses) is Ok <==> {
            &&& time is Ok
            &&& time->Ok_0 >= 0
            &&& raw.subsidy_schedule.len() > 0
            &&& forall|i: int|
                0 <= i < raw.subsidy_schedule.len() ==> parsed_u128(
                    #[trigger] raw.subsidy_schedule[i],
                ) is Some
            &&& unhexed(raw.initial_target) is Some
            &&& unhexed(raw.initial_target)->0.len() == 32
            &&& forall|i: int|
                0 <= i < raw.premine.len() ==> (#[trigger] addresses[i]) is Ok && parsed_u128(
                    raw.premine[i].amount,
                ) is Some
        },
{
    lemma_schedule_is_read(raw.subsidy_schedule);
    lemma_premine_is_read(raw.premine, addresses);
    if genesis_of(raw, time, addresses) is Ok {
        read_parameters_match_the_file(raw, time, addresses);
        let genesis = genesis_of(raw, time, addresses)->Ok_0;
        assert forall|i: int| 0 <= i < raw.premine.len() implies (#[trigger] addresses[i]) is Ok
            && parsed_u128(raw.premine[i].amount) is Some by {
            assert(addresses[i] == Ok::<_, CryptoErrorView>(genesis.premine[i].0));
        }
    }
}

proof fn lemma_schedule_is_read(values: Seq<Seq<char>>)
    ensures
        (forall|i: int| 0 <= i < values.len() ==> parsed_u128(#[trigger] values[i]) is Some)
            ==> schedule_of(values) is Ok,
    decreases values.len(),
{
    if values.len() > 0 && forall|i: int|
        0 <= i < values.len() ==> parsed_u128(#[trigger] values[i]) is Some {
        let front = values.drop_last();
        assert forall|i: int| 0 <= i < front.len() implies parsed_u128(
            #[trigger] front[i],
        ) is Some by {
            assert(front[i] == values[i]);
        }
        assert(parsed_u128(values[values.len() - 1]) is Some);
        lemma_schedule_is_read(front);
    }
}

proof fn lemma_premine_is_read(
    entries: Seq<RawPremineEntryView>,
    addresses: Seq<Result<Address, CryptoErrorView>>,
)
    requires
        addresses.len() == entries.len(),
    ensures
        (forall|i: int|
            0 <= i < entries.len() ==> (#[trigger] addresses[i]) is Ok && parsed_u128(
                entries[i].amount,
            ) is Some) ==> premine_of(entries, addresses) is Ok,
    decreases entries.len(),
{
    if entries.len() > 0 && forall|i: int|
        0 <= i < entries.len() ==> (#[trigger] addresses[i]) is Ok && parsed_u128(
            entries[i].amount,
        ) is Some {
        let front = entries.drop_last();
        let read = addresses.drop_last();
        assert forall|i: int| 0 <= i < front.len() implies (#[trigger] read[i]) is Ok
            && parsed_u128(front[i].amount) is Some by {
            assert(read[i] == addresses[i] && front[i] == entries[i]);
        }
        assert(addresses[entries.len() - 1] is Ok);
        lemma_premine_is_read(front, read);
    }
}

proof fn lemma_schedule_matches(values: Seq<Seq<char>>)
    requires
        schedule_of(values) is Ok,
    ensures
        schedule_of(values)->Ok_0.len() == values.len(),
        forall|i: int|
            0 <= i < values.len() ==> parsed_u128(#[trigger] values[i]) == Some(
                schedule_of(values)->Ok_0[i],
            ),
    decreases values.len(),
{
    if values.len() > 0 {
        let front = values.drop_last();
        lemma_schedule_matches(front);
        assert forall|i: int| 0 <= i < values.len() implies parsed_u128(#[trigger] values[i])
            == Some(schedule_of(values)->Ok_0[i]) by {
            if i < front.len() {
                assert(front[i] == values[i]);
            }
        }
    }
}

proof fn lemma_premine_matches(
    entries: Seq<RawPremineEntryView>,
    addresses: Seq<Result<Address, CryptoErrorView>>,
)
    requires
        addresses.len() == entries.len(),
        premine_of(entries, addresses) is Ok,
    ensures
        premine_of(entries, addresses)->Ok_0.len() == entries.len(),
        forall|i: int|
            0 <= i < entries.len() ==> addresses[i] == Ok::<_, CryptoErrorView>(
                (#[trigger] premine_of(entries, addresses)->Ok_0[i]).0,
            ) && parsed_u128(entries[i].amount) == Some(premine_of(entries, addresses)->Ok_0[i].1),
    decreases entries.len(),
{
    if entries.len() > 0 {
        let front = entries.drop_last();
        let read = addresses.drop_last();
        lemma_premine_matches(front, read);
        let list = premine_of(entries, addresses)->Ok_0;
        assert forall|i: int| 0 <= i < entries.len() implies addresses[i] == Ok::<
            _,
            CryptoErrorView,
        >((#[trigger] list[i]).0) && parsed_u128(entries[i].amount) == Some(list[i].1) by {
            if i < front.len() {
                assert(front[i] == entries[i] && read[i] == addresses[i]);
                assert(list[i] == premine_of(front, read)->Ok_0[i]);
            }
        }
    }
}

/// The first subsidy that is no number is named, with its place in the list.
pub proof fn first_bad_subsidy_is_named(values: Seq<Seq<char>>, k: int)
    requires
        0 <= k < values.len(),
        forall|i: int| 0 <= i < k ==> parsed_u128(#[trigger] values[i]) is Some,
        parsed_u128(values[k]) is None,
    ensures
        schedule_of(values) == Err::<Seq<u128>, _>(
            GenesisErrorView::InvalidSubsidy { index: k, value: values[k] },
        ),
    decreases values.len(),
{
    let front = values.drop_last();
    assert forall|i: int| 0 <= i < k implies parsed_u128(#[trigger] front[i]) is Some by {
        assert(front[i] == values[i]);
    }
    if k < values.len() - 1 {
        assert(front[k] == values[k]);
        first_bad_subsidy_is_named(front, k);
    } else {
        assert forall|i: int| 0 <= i < front.len() implies parsed_u128(
            #[trigger] front[i],
        ) is Some by {}
        lemma_schedule_is_read(front);
    }
}

/// The first entry of the distribution that cannot be read is named: its address, with what is
/// wrong with it, or else its amount.
pub proof fn first_bad_share_is_named(
    entries: Seq<RawPremineEntryView>,
    addresses: Seq<Result<Address, CryptoErrorView>>,
    k: int,
)
    requires
        addresses.len() == entries.len(),
        0 <= k < entries.len(),
        forall|i: int|
            0 <= i < k ==> (#[trigger] addresses[i]) is Ok && parsed_u128(entries[i].amount) is Some,
        addresses[k] is Err || parsed_u128(entries[k].amount) is None,
    ensures
        premine_of(entries, addresses) == Err::<Seq<(Address, u128)>, _>(
            match addresses[k] {
                Err(e) => GenesisErrorView::InvalidPremineAddress(entries[k].address, e),
                Ok(_) => GenesisErrorView::InvalidPremineAmount {
                    address: entries[k].address,
                    value: entries[k].amount,
                },
            },
        ),
    decreases entries.len(),
{
    let front = entries.drop_last();
    let read = addresses.drop_last();
    assert forall|i: int| 0 <= i < k implies (#[trigger] read[i]) is Ok && parsed_u128(
        front[i].amount,
    ) is Some by {
        assert(read[i] == addresses[i] && front[i] == entries[i]);
    }
    if k < entries.len() - 1 {
        assert(front[k] == entries[k] && read[k] == addresses[k]);
        first_bad_share_is_named(front, read, k);
    } else {
        lemma_premine_is_read(front, read);
    }
}

} // verus!
