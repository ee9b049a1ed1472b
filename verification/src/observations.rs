//! Finite offline facts for interpreting regenerated item display headers.
//! These facts establish neither item membership nor numerical coverage; a
//! structurally valid catalog stays untrusted until authenticated separately.
//! Numeric base values are held as the bit patterns of IEEE-754 doubles.
use crate::gems::{lex_less, lex_lt};
use crate::item_lines::ItemLineLimits;
use crate::item_source::ItemSourceLimits;
use crate::provenance::{ExternalSourceSystem, SourcePin, has_control, has_control_exec, sha256_hex_ok, sha256_hex_ok_exec};
use crate::text::{bytes_eq, trim_ascii, trim_ascii_exec};
use vstd::prelude::*;

verus! {

pub const OWNED_ITEM_OBSERVATION_VERSION: u32 = 1;

/// The IEEE-754 double with bit pattern `bits` is finite: its exponent field
/// is not all ones.
pub open spec fn finite_bits(bits: u64) -> bool {
    (bits >> 52u64) & 0x7FFu64 != 0x7FFu64
}

pub fn finite_bits_exec(bits: u64) -> (r: bool)
    ensures
        r == finite_bits(bits),
{
    (bits >> 52u64) & 0x7FFu64 != 0x7FFu64
}

/// A numeric base value of a source item row.
#[derive(Clone, Copy, Debug, PartialEq, Eq, Structural)]
pub enum ItemObservationNumericField {
    Absent,
    Finite { bits: u64 },
    Unsupported,
}

impl ItemObservationNumericField {
    pub open spec fn spec_is_finite(self) -> bool {
        self matches ItemObservationNumericField::Finite { bits } && finite_bits(bits)
    }

    pub open spec fn spec_well_formed(self) -> bool {
        self matches ItemObservationNumericField::Finite { bits } ==> finite_bits(bits)
    }

    pub fn is_finite(self) -> (r: bool)
        ensures
            r == self.spec_is_finite(),
    {
        match self {
            ItemObservationNumericField::Finite { bits } => finite_bits_exec(bits),
            _ => false,
        }
    }

    pub fn is_absent_or_finite(self) -> (r: bool)
        ensures
            r == (self is Absent || self.spec_is_finite()),
    {
        match self {
            ItemObservationNumericField::Absent => true,
            _ => self.is_finite(),
        }
    }
}

/// Whether the reviewed source takes its weapon branch for a base.
#[derive(Clone, Copy, Debug, PartialEq, Eq, Structural)]
pub enum ItemObservationWeaponBranch {
    Absent,
    False,
    /// Any present non-false source value selects the weapon branch.
    Truthy,
}

#[derive(Clone, Copy, Debug, PartialEq, Eq, Structural)]
pub enum ItemObservationArmourField {
    Absent,
    /// Only reviewed named numeric channels.
    Table {
        armour: ItemObservationNumericField,
        evasion: ItemObservationNumericField,
        energy_shield: ItemObservationNumericField,
        ward: ItemObservationNumericField,
        block_chance: ItemObservationNumericField,
        movement_penalty: ItemObservationNumericField,
    },
    Unsupported,
}

/// Whether a reviewed defence-header branch can change the selected base.
#[derive(Clone, Copy, Debug, PartialEq, Eq, Structural)]
pub enum ItemObservationRetarget {
    /// No reviewed branch can change the selected base.
    NoRetarget,
    Possible,
}

#[derive(Debug)]
pub struct ItemObservationBaseRow {
    pub source_base: Vec<u8>,
    pub weapon_branch: ItemObservationWeaponBranch,
    pub armour: ItemObservationArmourField,
    pub spirit: ItemObservationNumericField,
    pub charm_slots: ItemObservationNumericField,
    pub defence_base_retarget: ItemObservationRetarget,
}

pub open spec fn armour_observable(a: ItemObservationArmourField) -> bool {
    match a {
        ItemObservationArmourField::Table { armour, evasion, energy_shield, ward, block_chance, movement_penalty } => {
            &&& (armour is Absent || armour.spec_is_finite())
            &&& (evasion is Absent || evasion.spec_is_finite())
            &&& (energy_shield is Absent || energy_shield.spec_is_finite())
            &&& (ward is Absent || ward.spec_is_finite())
            &&& (block_chance is Absent || block_chance.spec_is_finite())
            &&& (movement_penalty is Absent || movement_penalty.spec_is_finite())
        },
        _ => false,
    }
}

impl ItemObservationBaseRow {
    /// Offline source fact only: compatible fresh-item defence recomputation.
    pub fn can_observe_defences(&self) -> (r: bool)
        ensures
            r == ((self.weapon_branch is Absent || self.weapon_branch is False) && self.defence_base_retarget
                is NoRetarget && armour_observable(self.armour)),
    {
        let branch = match self.weapon_branch {
            ItemObservationWeaponBranch::Absent | ItemObservationWeaponBranch::False => true,
            ItemObservationWeaponBranch::Truthy => false,
        };
        let retarget = match self.defence_base_retarget {
            ItemObservationRetarget::NoRetarget => true,
            ItemObservationRetarget::Possible => false,
        };
        let armour = match self.armour {
            ItemObservationArmourField::Table { armour, evasion, energy_shield, ward, block_chance, movement_penalty } => {
                armour.is_absent_or_finite() && evasion.is_absent_or_finite() && energy_shield.is_absent_or_finite()
                    && ward.is_absent_or_finite() && block_chance.is_absent_or_finite()
                    && movement_penalty.is_absent_or_finite()
            },
            _ => false,
        };
        branch && retarget && armour
    }

    /// Offline source fact only; this does not calculate Spirit.
    pub fn can_observe_spirit(&self) -> (r: bool)
        ensures
            r == self.spirit.spec_is_finite(),
    {
        self.spirit.is_finite()
    }

    /// Offline source fact only; zero is a present numeric base value.
    pub fn can_observe_charm_slots(&self) -> (r: bool)
        ensures
            r == self.charm_slots.spec_is_finite(),
    {
        self.charm_slots.is_finite()
    }
}

/// The display-header family a reviewed observation belongs to.
#[derive(Clone, Copy, Debug, PartialEq, Eq, Structural)]
pub enum ItemObservationFamily {
    Defences,
    Spirit,
    CharmSlots,
}

/// The base row supports observing family `f`.
pub open spec fn family_permits(f: ItemObservationFamily, row: ItemObservationBaseRow) -> bool {
    match f {
        ItemObservationFamily::Spirit => row.spirit.spec_is_finite(),
        ItemObservationFamily::CharmSlots => row.charm_slots.spec_is_finite(),
        ItemObservationFamily::Defences => (row.weapon_branch is Absent || row.weapon_branch is False)
            && row.defence_base_retarget is NoRetarget && armour_observable(row.armour),
    }
}

impl ItemObservationFamily {
    /// The base row supports observing this family.
    pub fn permits(self, row: &ItemObservationBaseRow) -> (r: bool)
        ensures
            r == family_permits(self, *row),
    {
        match self {
            ItemObservationFamily::Defences => row.can_observe_defences(),
            ItemObservationFamily::Spirit => row.can_observe_spirit(),
            ItemObservationFamily::CharmSlots => row.can_observe_charm_slots(),
        }
    }
}

#[derive(Debug)]
pub struct ItemObservationCatalog {
    pub schema_version: u32,
    pub source: SourcePin,
    /// Canonical ascending exact source names; duplicate names are forbidden.
    pub bases: Vec<ItemObservationBaseRow>,
}

#[derive(Clone, Copy, Debug)]
pub struct ItemObservationLimits {
    pub max_catalog_bytes: usize,
    pub max_bases: usize,
    pub max_source_files: usize,
    pub max_text_bytes: usize,
    pub max_work: usize,
}

pub const OBSERVATION_MAX_CATALOG_BYTES: usize = 4194304;
pub const OBSERVATION_MAX_BASES: usize = 4096;
pub const OBSERVATION_MAX_SOURCE_FILES: usize = 256;
pub const OBSERVATION_MAX_TEXT_BYTES: usize = 1024;
pub const OBSERVATION_MAX_WORK: usize = 16777216;

impl Default for ItemObservationLimits {
    fn default() -> (r: Self)
        ensures
            r.max_catalog_bytes == OBSERVATION_MAX_CATALOG_BYTES,
            r.max_bases == OBSERVATION_MAX_BASES,
            r.max_source_files == OBSERVATION_MAX_SOURCE_FILES,
            r.max_text_bytes == OBSERVATION_MAX_TEXT_BYTES,
            r.max_work == OBSERVATION_MAX_WORK,
    {
        ItemObservationLimits {
            max_catalog_bytes: OBSERVATION_MAX_CATALOG_BYTES,
            max_bases: OBSERVATION_MAX_BASES,
            max_source_files: OBSERVATION_MAX_SOURCE_FILES,
            max_text_bytes: OBSERVATION_MAX_TEXT_BYTES,
            max_work: OBSERVATION_MAX_WORK,
        }
    }
}

pub open spec fn observation_limits_valid(l: ItemObservationLimits) -> bool {
    &&& 0 < l.max_catalog_bytes <= OBSERVATION_MAX_CATALOG_BYTES
    &&& 0 < l.max_bases <= OBSERVATION_MAX_BASES
    &&& 0 < l.max_source_files <= OBSERVATION_MAX_SOURCE_FILES
    &&& 0 < l.max_text_bytes <= OBSERVATION_MAX_TEXT_BYTES
    &&& 0 < l.max_work <= OBSERVATION_MAX_WORK
}

#[derive(Debug)]
pub enum ItemObservationError {
    Limit(&'static str),
    Invalid(&'static str),
}

impl ItemObservationLimits {
    pub fn validate(self) -> (r: Result<(), ItemObservationError>)
        ensures
            r is Ok <==> observation_limits_valid(self),
            r is Err ==> r matches Err(ItemObservationError::Limit(_)),
    {
        if self.max_catalog_bytes == 0 || self.max_catalog_bytes > OBSERVATION_MAX_CATALOG_BYTES {
            return Err(ItemObservationError::Limit("catalog bytes"));
        }
        if self.max_bases == 0 || self.max_bases > OBSERVATION_MAX_BASES {
            return Err(ItemObservationError::Limit("bases"));
        }
        if self.max_source_files == 0 || self.max_source_files > OBSERVATION_MAX_SOURCE_FILES {
            return Err(ItemObservationError::Limit("source files"));
        }
        if self.max_text_bytes == 0 || self.max_text_bytes > OBSERVATION_MAX_TEXT_BYTES {
            return Err(ItemObservationError::Limit("text bytes"));
        }
        if self.max_work == 0 || self.max_work > OBSERVATION_MAX_WORK {
            return Err(ItemObservationError::Limit("work"));
        }
        Ok(())
    }
}

/// Catalog text: nonempty, within the byte limit, without surrounding ASCII
/// whitespace and without control characters.
pub open spec fn text_ok(s: Seq<u8>, limits: ItemObservationLimits) -> bool {
    &&& s.len() <= limits.max_text_bytes
    &&& s.len() > 0
    &&& trim_ascii(s) == s
    &&& !has_control(s)
}

/// Work charged for checking one text.
pub open spec fn text_work(s: Seq<u8>) -> int {
    (3 * s.len() + 1) as int
}

fn spend(work: &mut usize, amount: usize) -> (r: Result<(), ItemObservationError>)
    ensures
        amount <= *old(work) ==> r is Ok && *final(work) == *old(work) - amount,
        amount > *old(work) ==> r matches Err(ItemObservationError::Limit(_)),
{
    if amount <= *work {
        *work = *work - amount;
        Ok(())
    } else {
        Err(ItemObservationError::Limit("work"))
    }
}

fn valid_text(value: &[u8], limits: ItemObservationLimits, work: &mut usize) -> (r: Result<(), ItemObservationError>)
    requires
        *old(work) <= OBSERVATION_MAX_WORK,
        limits.max_text_bytes <= OBSERVATION_MAX_TEXT_BYTES,
    ensures
        r is Ok <==> text_ok(value@, limits) && text_work(value@) <= *old(work),
        r is Ok ==> *final(work) == *old(work) - text_work(value@),
{
    if value.len() > limits.max_text_bytes {
        return Err(ItemObservationError::Limit("text bytes"));
    }
    spend(work, value.len() * 3 + 1)?;
    if value.len() == 0 || !bytes_eq(trim_ascii_exec(value), value) || has_control_exec(value) {
        return Err(ItemObservationError::Invalid("text"));
    }
    Ok(())
}

/// Work charged for the files from `n` on, and the bases from `n` on.
pub open spec fn files_work(c: ItemObservationCatalog, n: int) -> int
    decreases n,
{
    if n <= 0 {
        0
    } else {
        files_work(c, n - 1) + text_work(c.source.files@[n - 1].path@) + 64
    }
}

pub open spec fn bases_work(c: ItemObservationCatalog, n: int) -> int
    decreases n,
{
    if n <= 0 {
        0
    } else {
        bases_work(c, n - 1) + text_work(c.bases@[n - 1].source_base@) + 10
    }
}

pub open spec fn row_numbers_ok(row: ItemObservationBaseRow) -> bool {
    &&& row.spirit.spec_well_formed()
    &&& row.charm_slots.spec_well_formed()
    &&& match row.armour {
        ItemObservationArmourField::Table { armour, evasion, energy_shield, ward, block_chance, movement_penalty } => {
            &&& armour.spec_well_formed()
            &&& evasion.spec_well_formed()
            &&& energy_shield.spec_well_formed()
            &&& ward.spec_well_formed()
            &&& block_chance.spec_well_formed()
            &&& movement_penalty.spec_well_formed()
        },
        _ => true,
    }
}

/// A structurally valid catalog under `limits`.
pub open spec fn catalog_ok(c: ItemObservationCatalog, limits: ItemObservationLimits) -> bool {
    let files = c.source.files@;
    let bases = c.bases@;
    &&& observation_limits_valid(limits)
    &&& c.schema_version == OWNED_ITEM_OBSERVATION_VERSION
    &&& c.source.system == ExternalSourceSystem::PathOfBuilding2
    &&& 0 < bases.len() <= limits.max_bases
    &&& 0 < files.len() <= limits.max_source_files
    &&& text_ok(c.source.revision@, limits)
    &&& forall|i: int| 0 <= i < files.len() ==> #[trigger] text_ok(files[i].path@, limits)
    &&& forall|i: int| 0 <= i < files.len() ==> #[trigger] sha256_hex_ok(files[i].sha256@)
    &&& forall|i: int| 0 < i < files.len() ==> lex_lt(files[i - 1].path@, #[trigger] files[i].path@)
    &&& forall|i: int| 0 <= i < bases.len() ==> #[trigger] text_ok(bases[i].source_base@, limits)
    &&& forall|i: int| 0 <= i < bases.len() ==> #[trigger] row_numbers_ok(bases[i])
    &&& forall|i: int| 0 < i < bases.len() ==> lex_lt(bases[i - 1].source_base@, #[trigger] bases[i].source_base@)
    &&& text_work(c.source.revision@) + files_work(c, files.len() as int) + bases_work(c, bases.len() as int)
        <= limits.max_work
}

proof fn lemma_files_work_mono(c: ItemObservationCatalog, m: int, n: int)
    requires
        0 <= m <= n,
    ensures
        0 <= files_work(c, m) <= files_work(c, n),
    decreases n,
{
    if m < n {
        lemma_files_work_mono(c, m, n - 1);
    } else if n > 0 {
        lemma_files_work_mono(c, n - 1, n - 1);
    }
}

proof fn lemma_bases_work_mono(c: ItemObservationCatalog, m: int, n: int)
    requires
        0 <= m <= n,
    ensures
        0 <= bases_work(c, m) <= bases_work(c, n),
    decreases n,
{
    if m < n {
        lemma_bases_work_mono(c, m, n - 1);
    } else if n > 0 {
        lemma_bases_work_mono(c, n - 1, n - 1);
    }
}

fn row_numbers_exec(row: &ItemObservationBaseRow) -> (r: bool)
    ensures
        r == row_numbers_ok(*row),
{
    let table = match row.armour {
        ItemObservationArmourField::Table { armour, evasion, energy_shield, ward, block_chance, movement_penalty } => {
            number_ok(armour) && number_ok(evasion) && number_ok(energy_shield) && number_ok(ward) && number_ok(
                block_chance,
            ) && number_ok(movement_penalty)
        },
        _ => true,
    };
    number_ok(row.spirit) && number_ok(row.charm_slots) && table
}

fn number_ok(f: ItemObservationNumericField) -> (r: bool)
    ensures
        r == f.spec_well_formed(),
{
    match f {
        ItemObservationNumericField::Finite { bits } => finite_bits_exec(bits),
        _ => true,
    }
}

/// Validate finite structure and canonical ordering with bounded work. This is
/// not source authentication: no revision string or supplied hash grants trust.
#[verifier::loop_isolation(false)]
pub fn validate_item_observation_catalog(catalog: &ItemObservationCatalog, limits: ItemObservationLimits) -> (r: Result<
    (),
    ItemObservationError,
>)
    ensures
        r is Ok <==> catalog_ok(*catalog, limits),
{
    limits.validate()?;
    if catalog.schema_version != OWNED_ITEM_OBSERVATION_VERSION || catalog.source.system
        != ExternalSourceSystem::PathOfBuilding2 {
        return Err(ItemObservationError::Invalid("version or source system"));
    }
    if catalog.bases.len() == 0 || catalog.bases.len() > limits.max_bases {
        return Err(ItemObservationError::Limit("bases"));
    }
    let files = &catalog.source.files;
    if files.len() == 0 || files.len() > limits.max_source_files {
        return Err(ItemObservationError::Limit("source files"));
    }
    let ghost c = *catalog;
    proof {
        lemma_files_work_mono(c, 0, files@.len() as int);
        lemma_bases_work_mono(c, 0, catalog.bases@.len() as int);
    }
    let mut work = limits.max_work;
    valid_text(catalog.source.revision.as_slice(), limits, &mut work)?;
    let ghost base = limits.max_work - text_work(c.source.revision@);
    let mut i: usize = 0;
    while i < files.len()
        invariant
            i <= files@.len(),
            work == base - files_work(c, i as int),
            work <= OBSERVATION_MAX_WORK,
            forall|q: int| 0 <= q < i ==> #[trigger] text_ok(files@[q].path@, limits),
            forall|q: int| 0 <= q < i ==> #[trigger] sha256_hex_ok(files@[q].sha256@),
            forall|q: int| 0 < q < i ==> lex_lt(files@[q - 1].path@, #[trigger] files@[q].path@),
        decreases files@.len() - i,
    {
        proof {
            lemma_files_work_mono(c, i + 1, files@.len() as int);
        }
        valid_text(files[i].path.as_slice(), limits, &mut work)?;
        spend(&mut work, 64)?;
        if !sha256_hex_ok_exec(files[i].sha256.as_slice()) {
            assert(!sha256_hex_ok(files@[i as int].sha256@));
            return Err(ItemObservationError::Invalid("source hash"));
        }
        if i > 0 && !lex_less(files[i - 1].path.as_slice(), files[i].path.as_slice()) {
            return Err(ItemObservationError::Invalid("source file ordering or duplicate"));
        }
        assert(text_ok(files@[i as int].path@, limits) && sha256_hex_ok(files@[i as int].sha256@));
        i = i + 1;
    }
    let ghost base2 = base - files_work(c, files@.len() as int);
    let bases = &catalog.bases;
    let mut k: usize = 0;
    while k < bases.len()
        invariant
            k <= bases@.len(),
            work == base2 - bases_work(c, k as int),
            work <= OBSERVATION_MAX_WORK,
            forall|q: int| 0 <= q < k ==> #[trigger] text_ok(bases@[q].source_base@, limits),
            forall|q: int| 0 <= q < k ==> #[trigger] row_numbers_ok(bases@[q]),
            forall|q: int| 0 < q < k ==> lex_lt(bases@[q - 1].source_base@, #[trigger] bases@[q].source_base@),
        decreases bases@.len() - k,
    {
        proof {
            lemma_bases_work_mono(c, k + 1, bases@.len() as int);
        }
        let row = &bases[k];
        valid_text(row.source_base.as_slice(), limits, &mut work)?;
        spend(&mut work, 10)?;
        if k > 0 && !lex_less(bases[k - 1].source_base.as_slice(), row.source_base.as_slice()) {
            return Err(ItemObservationError::Invalid("base ordering or duplicate"));
        }
        if !row_numbers_exec(row) {
            assert(!row_numbers_ok(bases@[k as int]));
            return Err(ItemObservationError::Invalid("non-finite numeric field"));
        }
        assert(text_ok(bases@[k as int].source_base@, limits));
        assert(row_numbers_ok(bases@[k as int]));
        k = k + 1;
    }
    Ok(())
}

/// Limits of compiling reviewed observations into template allowlists.
#[derive(Clone, Copy, Debug)]
pub struct ItemObservationPolicyLimits {
    pub max_request_bytes: usize,
    pub max_observations: usize,
    /// Additional compiler work; catalog and checked policies keep their own limits.
    pub max_work: usize,
    pub catalog: ItemObservationLimits,
    pub items: ItemLineLimits,
    pub item_source: ItemSourceLimits,
}

pub const OBSERVATION_POLICY_MAX_REQUEST_BYTES: usize = 1048576;
pub const OBSERVATION_POLICY_MAX_OBSERVATIONS: usize = 64;
pub const OBSERVATION_POLICY_MAX_WORK: usize = 67108864;

#[derive(Debug)]
pub enum ItemObservationPolicyError {
    Limit(&'static str),
    Invalid(&'static str),
    Binding,
    Catalog(ItemObservationError),
    /// The successor line policy does not pass its own checks.
    Items(crate::item_lines::ItemLineError),
}

pub open spec fn observation_policy_limits_valid(l: ItemObservationPolicyLimits) -> bool {
    &&& 0 < l.max_request_bytes <= OBSERVATION_POLICY_MAX_REQUEST_BYTES
    &&& 0 < l.max_observations <= OBSERVATION_POLICY_MAX_OBSERVATIONS
    &&& 0 < l.max_work <= OBSERVATION_POLICY_MAX_WORK
}

impl ItemObservationPolicyLimits {
    pub fn validate(self) -> (r: Result<(), ItemObservationPolicyError>)
        ensures
            r is Ok <==> observation_policy_limits_valid(self),
            r is Err ==> r matches Err(ItemObservationPolicyError::Limit(_)),
    {
        if self.max_request_bytes == 0 || self.max_request_bytes > OBSERVATION_POLICY_MAX_REQUEST_BYTES {
            return Err(ItemObservationPolicyError::Limit("request bytes"));
        }
        if self.max_observations == 0 || self.max_observations > OBSERVATION_POLICY_MAX_OBSERVATIONS {
            return Err(ItemObservationPolicyError::Limit("observations"));
        }
        if self.max_work == 0 || self.max_work > OBSERVATION_POLICY_MAX_WORK {
            return Err(ItemObservationPolicyError::Limit("work"));
        }
        Ok(())
    }
}


/// A numeric channel that is absent or holds a finite value.
pub open spec fn channel_absent_or_finite(c: ItemObservationNumericField) -> bool {
    ||| c is Absent
    ||| (c matches ItemObservationNumericField::Finite { bits } && finite_bits(bits))
}

/// A base whose weapon branch is not taken, that cannot be retargeted, and
/// whose defence table has each channel absent or finite supports observing
/// defences, whichever channels are absent; and a base that supports it has
/// such a table.
pub proof fn law_defences_need_absent_or_finite_channels(row: ItemObservationBaseRow)
    ensures
        family_permits(ItemObservationFamily::Defences, row) <==> {
            &&& !(row.weapon_branch is Truthy)
            &&& row.defence_base_retarget is NoRetarget
            &&& row.armour matches ItemObservationArmourField::Table {
                armour,
                evasion,
                energy_shield,
                ward,
                block_chance,
                movement_penalty,
            } && channel_absent_or_finite(armour) && channel_absent_or_finite(evasion)
                && channel_absent_or_finite(energy_shield) && channel_absent_or_finite(ward)
                && channel_absent_or_finite(block_chance) && channel_absent_or_finite(movement_penalty)
        },
{
}

} // verus!
