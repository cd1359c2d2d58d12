//! Model Fit workspace state: device rows with stable identity, scientific
//! revision and checkbox state; the selected row and model; and the pending
//! output and DIBL measurements that wait for a device.
//!
//! The fitted science itself (`D`, the output curves `C`, the second transfer
//! `T`) is carried opaquely; this module reads only the plain facts of
//! [`DeviceFacts`] and the provenance of each measurement.

use vstd::prelude::*;
use crate::models::{model_at, FitModel, FIT_MODEL_COUNT};
use crate::pending::{apply_pending_effects, pending_after, upsert_match_set, upserted, Attributed, PendingEffect};
use crate::source::{
    same_named, DiblSource, OutputSource, PrimaryTransferSource, Provenance, ProvenanceView,
};
use crate::text::str_eq;

verus! {

/// Stable identity of a device row; never reused within one state.
#[derive(Clone, Copy, Debug, PartialEq, Eq, Hash, Structural)]
pub struct DeviceId(u64);

/// How many scientific changes a device row has committed.
#[derive(Clone, Copy, Debug, Default, PartialEq, Eq, Hash, Structural)]
pub struct ScientificRevision(u64);

/// A device row as it was when a worker or dialog captured it.
#[derive(Clone, Copy, Debug, PartialEq, Eq, Structural)]
pub struct DeviceToken {
    id: DeviceId,
    revision: ScientificRevision,
}

impl DeviceId {
    pub closed spec fn val(self) -> u64 {
        self.0
    }

    pub fn get(self) -> (r: u64)
        ensures
            r == self.val(),
    {
        self.0
    }
}

impl ScientificRevision {
    pub closed spec fn val(self) -> u64 {
        self.0
    }

    pub fn get(self) -> (r: u64)
        ensures
            r == self.val(),
    {
        self.0
    }
}

impl DeviceToken {
    pub closed spec fn id_val(self) -> u64 {
        self.id.0
    }

    pub closed spec fn revision_val(self) -> u64 {
        self.revision.0
    }

    pub fn id(self) -> (r: DeviceId)
        ensures
            r.val() == self.id_val(),
    {
        self.id
    }

    pub fn revision(self) -> (r: ScientificRevision)
        ensures
            r.val() == self.revision_val(),
    {
        self.revision
    }
}

/// What this library reads of a fitted device: its name and which attached
/// measurements it owns.
pub struct DeviceFacts {
    pub name: String,
    /// The normalized file stem of `name`, by which measurement files are
    /// paired with the device.
    pub stem: String,
    pub has_output_curves: bool,
    pub has_second_transfer: bool,
}

#[derive(Clone, Copy, Debug, PartialEq, Eq, Structural)]
pub enum DeviceInstallError {
    PrimarySourceNameMismatch,
    OutputSourceRequired,
    OutputSourceWithoutCurves,
    DiblSourceRequired,
    DiblSourceWithoutSecondTransfer,
}

#[derive(Clone, Copy, Debug, PartialEq, Eq, Structural)]
pub enum DeviceInstallOutcome {
    Installed,
    AlreadyLoaded,
}

/// Why a device cannot carry the given provenance, if it cannot: the primary
/// source must carry the device's name, and an output (DIBL) source is present
/// exactly when the device owns output curves (a second transfer).
pub open spec fn science_error(
    name: Seq<char>,
    has_output: bool,
    has_second: bool,
    primary: ProvenanceView,
    output: bool,
    dibl: bool,
) -> Option<DeviceInstallError> {
    if name != primary.name {
        Some(DeviceInstallError::PrimarySourceNameMismatch)
    } else if has_output && !output {
        Some(DeviceInstallError::OutputSourceRequired)
    } else if !has_output && output {
        Some(DeviceInstallError::OutputSourceWithoutCurves)
    } else if has_second && !dibl {
        Some(DeviceInstallError::DiblSourceRequired)
    } else if !has_second && dibl {
        Some(DeviceInstallError::DiblSourceWithoutSecondTransfer)
    } else {
        None
    }
}

/// One valid scientific value with the provenance of its measurements.
pub struct DeviceScience<D> {
    device: D,
    facts: DeviceFacts,
    primary_source: PrimaryTransferSource,
    output_source: Option<OutputSource>,
    dibl_source: Option<DiblSource>,
}

pub open spec fn source_view_opt<S: View<V = ProvenanceView>>(o: Option<S>) -> Option<
    ProvenanceView,
> {
    match o {
        Some(s) => Some(s@),
        None => None,
    }
}

impl<D> DeviceScience<D> {
    pub closed spec fn device_spec(&self) -> D {
        self.device
    }

    pub closed spec fn name(&self) -> Seq<char> {
        self.facts.name@
    }

    pub closed spec fn has_output(&self) -> bool {
        self.facts.has_output_curves
    }

    pub closed spec fn has_second(&self) -> bool {
        self.facts.has_second_transfer
    }

    pub closed spec fn stem(&self) -> Seq<char> {
        self.facts.stem@
    }

    pub closed spec fn primary(&self) -> ProvenanceView {
        self.primary_source@
    }

    /// The attached output source itself.
    pub closed spec fn output_src(&self) -> Option<OutputSource> {
        self.output_source
    }

    /// The attached DIBL source itself.
    pub closed spec fn dibl_src(&self) -> Option<DiblSource> {
        self.dibl_source
    }

    /// Everything but the device value agrees.
    pub closed spec fn agrees(&self, other: &Self) -> bool {
        &&& self.facts == other.facts
        &&& self.primary_source == other.primary_source
        &&& self.output_source == other.output_source
        &&& self.dibl_source == other.dibl_source
    }

    pub closed spec fn output(&self) -> Option<ProvenanceView> {
        source_view_opt(self.output_source)
    }

    pub closed spec fn dibl(&self) -> Option<ProvenanceView> {
        source_view_opt(self.dibl_source)
    }

    /// Provenance agrees with the science it describes.
    pub closed spec fn wf(&self) -> bool {
        &&& science_error(
            self.facts.name@,
            self.facts.has_output_curves,
            self.facts.has_second_transfer,
            self.primary_source@,
            self.output_source is Some,
            self.dibl_source is Some,
        ) is None
    }

    /// Pairs a device with its provenance, refusing any disagreement.
    pub fn new(
        device: D,
        facts: DeviceFacts,
        primary_source: PrimaryTransferSource,
        output_source: Option<OutputSource>,
        dibl_source: Option<DiblSource>,
    ) -> (r: Result<Self, DeviceInstallError>)
        ensures
            r is Err <==> science_error(
                facts.name@,
                facts.has_output_curves,
                facts.has_second_transfer,
                primary_source@,
                output_source is Some,
                dibl_source is Some,
            ) is Some,
            r matches Err(e) ==> Some(e) == science_error(
                facts.name@,
                facts.has_output_curves,
                facts.has_second_transfer,
                primary_source@,
                output_source is Some,
                dibl_source is Some,
            ),
            r matches Ok(s) ==> {
                &&& s.wf()
                &&& s.device_spec() == device
                &&& s.name() == facts.name@
                &&& s.has_output() == facts.has_output_curves
                &&& s.has_second() == facts.has_second_transfer
                &&& s.primary() == primary_source@
                &&& s.output() == source_view_opt(output_source)
                &&& s.dibl() == source_view_opt(dibl_source)
            },
    {
        if !str_eq(facts.name.as_str(), primary_source.name()) {
            return Err(DeviceInstallError::PrimarySourceNameMismatch);
        }
        if facts.has_output_curves && output_source.is_none() {
            return Err(DeviceInstallError::OutputSourceRequired);
        }
        if !facts.has_output_curves && output_source.is_some() {
            return Err(DeviceInstallError::OutputSourceWithoutCurves);
        }
        if facts.has_second_transfer && dibl_source.is_none() {
            return Err(DeviceInstallError::DiblSourceRequired);
        }
        if !facts.has_second_transfer && dibl_source.is_some() {
            return Err(DeviceInstallError::DiblSourceWithoutSecondTransfer);
        }
        Ok(DeviceScience { device, facts, primary_source, output_source, dibl_source })
    }

    pub fn device(&self) -> (r: &D)
        ensures
            *r == self.device_spec(),
    {
        &self.device
    }

    pub fn primary_source(&self) -> (r: &PrimaryTransferSource)
        ensures
            r@ == self.primary(),
    {
        &self.primary_source
    }

    pub fn name_str(&self) -> (r: &str)
        ensures
            r@ == self.name(),
    {
        self.facts.name.as_str()
    }

    pub fn stem_str(&self) -> (r: &str)
        ensures
            r@ == self.stem(),
    {
        self.facts.stem.as_str()
    }

    pub fn has_output_curves(&self) -> (r: bool)
        ensures
            r == self.has_output(),
    {
        self.facts.has_output_curves
    }

    pub fn has_second_transfer(&self) -> (r: bool)
        ensures
            r == self.has_second(),
    {
        self.facts.has_second_transfer
    }

    /// The same science with `device` in place of the device value, for edits
    /// that leave the device's name and attached measurements as they are.
    pub fn with_device(self, device: D) -> (r: DeviceScience<D>)
        ensures
            r.agrees(&self),
            r.device_spec() == device,
            r.wf() == self.wf(),
            r.name() == self.name(),
            r.stem() == self.stem(),
            r.has_output() == self.has_output(),
            r.has_second() == self.has_second(),
            r.primary() == self.primary(),
            r.output() == self.output(),
            r.dibl() == self.dibl(),
            r.output_src() == self.output_src(),
            r.dibl_src() == self.dibl_src(),
    {
        DeviceScience { device, ..self }
    }

    /// The science once the curves of `source` replaced the attached output:
    /// `device` is the device after the replacement and `has_output_curves`
    /// whether it still owns output curves. The previous output source comes
    /// back when it names another file.
    pub fn with_output_replaced(self, source: OutputSource, device: D, has_output_curves: bool) -> (r: (
        DeviceScience<D>,
        Option<OutputSource>,
    ))
        requires
            self.wf(),
        ensures
            r.0.wf(),
            r.0.device_spec() == device,
            r.0.name() == self.name(),
            r.0.stem() == self.stem(),
            r.0.has_output() == has_output_curves,
            r.0.has_second() == self.has_second(),
            r.0.primary() == self.primary(),
            r.0.dibl() == self.dibl(),
            r.0.output_src() == if has_output_curves {
                Some(source)
            } else {
                None::<OutputSource>
            },
            r.1 == match self.output_src() {
                Some(o) => if same_named(o@, source@) {
                    None::<OutputSource>
                } else {
                    Some(o)
                },
                None => None::<OutputSource>,
            },
    {
        let DeviceScience { device: _, facts, primary_source, output_source, dibl_source } = self;
        let displaced = match output_source {
            Some(o) => if o.same_as(&source) {
                None
            } else {
                Some(o)
            },
            None => None,
        };
        let output_source = if has_output_curves {
            Some(source)
        } else {
            None
        };
        let facts = DeviceFacts {
            name: facts.name,
            stem: facts.stem,
            has_output_curves,
            has_second_transfer: facts.has_second_transfer,
        };
        (DeviceScience { device, facts, primary_source, output_source, dibl_source }, displaced)
    }

    /// The science once its output curves were detached; `device` is the
    /// device without them. The detached output source comes back.
    pub fn with_output_detached(self, device: D) -> (r: (DeviceScience<D>, OutputSource))
        requires
            self.wf(),
            self.has_output(),
        ensures
            r.0.wf(),
            r.0.device_spec() == device,
            r.0.name() == self.name(),
            r.0.stem() == self.stem(),
            !r.0.has_output(),
            r.0.has_second() == self.has_second(),
            r.0.primary() == self.primary(),
            r.0.dibl() == self.dibl(),
            r.0.output_src() is None,
            self.output_src() == Some(r.1),
    {
        let DeviceScience { device: _, facts, primary_source, output_source, dibl_source } = self;
        let detached = output_source.unwrap();
        let facts = DeviceFacts {
            name: facts.name,
            stem: facts.stem,
            has_output_curves: false,
            has_second_transfer: facts.has_second_transfer,
        };
        (DeviceScience { device, facts, primary_source, output_source: None, dibl_source }, detached)
    }

    /// The science once the second transfer of `source` replaced the attached
    /// one; `device` is the device after the replacement. The previous DIBL
    /// source comes back when it names another file.
    pub fn with_second_replaced(self, source: DiblSource, device: D) -> (r: (
        DeviceScience<D>,
        Option<DiblSource>,
    ))
        requires
            self.wf(),
        ensures
            r.0.wf(),
            r.0.device_spec() == device,
            r.0.name() == self.name(),
            r.0.stem() == self.stem(),
            r.0.has_output() == self.has_output(),
            r.0.has_second(),
            r.0.primary() == self.primary(),
            r.0.output() == self.output(),
            r.0.output_src() == self.output_src(),
            r.0.dibl_src() == Some(source),
            r.1 == match self.dibl_src() {
                Some(o) => if same_named(o@, source@) {
                    None::<DiblSource>
                } else {
                    Some(o)
                },
                None => None::<DiblSource>,
            },
    {
        let DeviceScience { device: _, facts, primary_source, output_source, dibl_source } = self;
        let displaced = match dibl_source {
            Some(o) => if o.same_as(&source) {
                None
            } else {
                Some(o)
            },
            None => None,
        };
        let facts = DeviceFacts {
            name: facts.name,
            stem: facts.stem,
            has_output_curves: facts.has_output_curves,
            has_second_transfer: true,
        };
        (
            DeviceScience { device, facts, primary_source, output_source, dibl_source: Some(source) },
            displaced,
        )
    }

    /// The science once its second transfer was detached; `device` is the
    /// device without it. The detached DIBL source comes back.
    pub fn with_second_detached(self, device: D) -> (r: (DeviceScience<D>, DiblSource))
        requires
            self.wf(),
            self.has_second(),
        ensures
            r.0.wf(),
            r.0.device_spec() == device,
            r.0.name() == self.name(),
            r.0.stem() == self.stem(),
            r.0.has_output() == self.has_output(),
            !r.0.has_second(),
            r.0.primary() == self.primary(),
            r.0.output_src() == self.output_src(),
            r.0.dibl_src() is None,
            self.dibl_src() == Some(r.1),
    {
        let DeviceScience { device: _, facts, primary_source, output_source, dibl_source } = self;
        let detached = dibl_source.unwrap();
        let facts = DeviceFacts {
            name: facts.name,
            stem: facts.stem,
            has_output_curves: facts.has_output_curves,
            has_second_transfer: false,
        };
        (DeviceScience { device, facts, primary_source, output_source, dibl_source: None }, detached)
    }
}

impl<D: Clone> DeviceScience<D> {
    /// A copy of this science: the same provenance and facts, and a clone of
    /// the device value.
    pub fn duplicate(&self) -> (r: Self)
        ensures
            r.agrees(self),
            cloned(self.device_spec(), r.device_spec()),
            r.wf() == self.wf(),
            r.name() == self.name(),
            r.stem() == self.stem(),
            r.has_output() == self.has_output(),
            r.has_second() == self.has_second(),
            r.primary() == self.primary(),
            r.output() == self.output(),
            r.dibl() == self.dibl(),
            r.output_src() == self.output_src(),
            r.dibl_src() == self.dibl_src(),
    {
        DeviceScience {
            device: self.device.clone(),
            facts: DeviceFacts {
                name: self.facts.name.clone(),
                stem: self.facts.stem.clone(),
                has_output_curves: self.facts.has_output_curves,
                has_second_transfer: self.facts.has_second_transfer,
            },
            primary_source: self.primary_source.duplicate(),
            output_source: match &self.output_source {
                Some(o) => Some(o.duplicate()),
                None => None,
            },
            dibl_source: match &self.dibl_source {
                Some(d) => Some(d.duplicate()),
                None => None,
            },
        }
    }
}

/// One device row: identity, revision, checkbox, and its science.
pub struct DeviceEntry<D> {
    id: DeviceId,
    revision: ScientificRevision,
    checked: bool,
    science: DeviceScience<D>,
}

impl<D> DeviceEntry<D> {
    pub closed spec fn id_val(&self) -> u64 {
        self.id.0
    }

    pub closed spec fn revision_val(&self) -> u64 {
        self.revision.0
    }

    pub closed spec fn checked_val(&self) -> bool {
        self.checked
    }

    pub closed spec fn science_spec(&self) -> DeviceScience<D> {
        self.science
    }

    /// This row with `science` committed: same identity and checkbox, the
    /// next scientific revision.
    pub closed spec fn with_science(self, science: DeviceScience<D>) -> DeviceEntry<D> {
        DeviceEntry {
            id: self.id,
            revision: ScientificRevision((self.revision.0 + 1) as u64),
            checked: self.checked,
            science,
        }
    }

    /// Committing science keeps a row's identity and checkbox.
    pub proof fn lemma_with_science_keeps_identity(self, science: DeviceScience<D>)
        ensures
            self.with_science(science).id_val() == self.id_val(),
            self.with_science(science).checked_val() == self.checked_val(),
            self.with_science(science).science_spec() == science,
    {
    }

    pub proof fn lemma_with_science(self, science: DeviceScience<D>)
        requires
            self.revision_val() < u64::MAX,
        ensures
            self.with_science(science).id_val() == self.id_val(),
            self.with_science(science).revision_val() == self.revision_val() + 1,
            self.with_science(science).checked_val() == self.checked_val(),
            self.with_science(science).science_spec() == science,
    {
    }

    pub fn device(&self) -> (r: &D)
        ensures
            *r == self.science_spec().device_spec(),
    {
        self.science.device()
    }

    pub fn science(&self) -> (r: &DeviceScience<D>)
        ensures
            *r == self.science_spec(),
    {
        &self.science
    }

    pub fn id(&self) -> (r: DeviceId)
        ensures
            r.val() == self.id_val(),
    {
        self.id
    }

    pub fn revision(&self) -> (r: ScientificRevision)
        ensures
            r.val() == self.revision_val(),
    {
        self.revision
    }

    pub fn is_checked(&self) -> (r: bool)
        ensures
            r == self.checked_val(),
    {
        self.checked
    }

    pub fn token(&self) -> (r: DeviceToken)
        ensures
            r.id_val() == self.id_val(),
            r.revision_val() == self.revision_val(),
    {
        DeviceToken { id: self.id, revision: self.revision }
    }

    pub fn transfer_name(&self) -> (r: &str)
        ensures
            r@ == self.science_spec().primary().name,
    {
        self.science.primary_source.name()
    }

    pub fn transfer_source_path(&self) -> (r: Option<&str>)
        ensures
            r.is_some() == self.science_spec().primary().path.is_some(),
            r.is_some() ==> r.unwrap()@ == self.science_spec().primary().path.unwrap(),
    {
        self.science.primary_source.path()
    }

    pub fn output_name(&self) -> (r: Option<&str>)
        ensures
            r.is_some() == self.science_spec().output().is_some(),
            r.is_some() ==> r.unwrap()@ == self.science_spec().output().unwrap().name,
    {
        match &self.science.output_source {
            Some(s) => Some(s.name()),
            None => None,
        }
    }

    pub fn output_source_path(&self) -> (r: Option<&str>)
        ensures
            r.is_some() == (self.science_spec().output() matches Some(o) && o.path.is_some()),
            r.is_some() ==> r.unwrap()@ == self.science_spec().output().unwrap().path.unwrap(),
    {
        match &self.science.output_source {
            Some(s) => s.path(),
            None => None,
        }
    }

    pub fn dibl_name(&self) -> (r: Option<&str>)
        ensures
            r.is_some() == self.science_spec().dibl().is_some(),
            r.is_some() ==> r.unwrap()@ == self.science_spec().dibl().unwrap().name,
    {
        match &self.science.dibl_source {
            Some(s) => Some(s.name()),
            None => None,
        }
    }

    pub fn dibl_source_path(&self) -> (r: Option<&str>)
        ensures
            r.is_some() == (self.science_spec().dibl() matches Some(o) && o.path.is_some()),
            r.is_some() ==> r.unwrap()@ == self.science_spec().dibl().unwrap().path.unwrap(),
    {
        match &self.science.dibl_source {
            Some(s) => s.path(),
            None => None,
        }
    }
}

#[derive(Clone, Copy, Debug, PartialEq, Eq, Structural)]
pub enum PendingOutputReason {
    NoMatch,
    Ambiguous,
    Detached,
    DeviceChanged,
    DiblConflict,
    WorkerFailed,
}

pub open spec fn pending_output_label(r: PendingOutputReason) -> Seq<char> {
    match r {
        PendingOutputReason::NoMatch => "No match"@,
        PendingOutputReason::Ambiguous => "Ambiguous"@,
        PendingOutputReason::Detached => "Detached"@,
        PendingOutputReason::DeviceChanged => "Device changed"@,
        PendingOutputReason::DiblConflict => "DIBL conflict"@,
        PendingOutputReason::WorkerFailed => "Worker failed"@,
    }
}

impl PendingOutputReason {
    pub fn label(self) -> (r: &'static str)
        ensures
            r@ == pending_output_label(self),
    {
        proof {
            reveal_strlit("No match");
            reveal_strlit("Ambiguous");
            reveal_strlit("Detached");
            reveal_strlit("Device changed");
            reveal_strlit("DIBL conflict");
            reveal_strlit("Worker failed");
        }
        match self {
            PendingOutputReason::NoMatch => "No match",
            PendingOutputReason::Ambiguous => "Ambiguous",
            PendingOutputReason::Detached => "Detached",
            PendingOutputReason::DeviceChanged => "Device changed",
            PendingOutputReason::DiblConflict => "DIBL conflict",
            PendingOutputReason::WorkerFailed => "Worker failed",
        }
    }
}

#[derive(Clone, Copy, Debug, PartialEq, Eq, Structural)]
pub enum PendingDiblReason {
    NoMatch,
    Ambiguous,
    NoFit,
    Detached,
    DeviceChanged,
    WorkerFailed,
}

pub open spec fn pending_dibl_label(r: PendingDiblReason) -> Seq<char> {
    match r {
        PendingDiblReason::NoMatch => "No match"@,
        PendingDiblReason::Ambiguous => "Ambiguous"@,
        PendingDiblReason::NoFit => "No fit"@,
        PendingDiblReason::Detached => "Detached"@,
        PendingDiblReason::DeviceChanged => "Device changed"@,
        PendingDiblReason::WorkerFailed => "Worker failed"@,
    }
}

impl PendingDiblReason {
    pub fn label(self) -> (r: &'static str)
        ensures
            r@ == pending_dibl_label(self),
    {
        proof {
            reveal_strlit("No match");
            reveal_strlit("Ambiguous");
            reveal_strlit("No fit");
            reveal_strlit("Detached");
            reveal_strlit("Device changed");
            reveal_strlit("Worker failed");
        }
        match self {
            PendingDiblReason::NoMatch => "No match",
            PendingDiblReason::Ambiguous => "Ambiguous",
            PendingDiblReason::NoFit => "No fit",
            PendingDiblReason::Detached => "Detached",
            PendingDiblReason::DeviceChanged => "Device changed",
            PendingDiblReason::WorkerFailed => "Worker failed",
        }
    }
}

/// Output curves waiting for a device, with their provenance and the reason.
pub struct PendingOutput<C> {
    pub source: OutputSource,
    pub curves: C,
    pub reason: PendingOutputReason,
}

/// A second transfer waiting for a device, with its provenance and reason.
pub struct PendingDibl<T> {
    pub source: DiblSource,
    pub second: T,
    pub reason: PendingDiblReason,
}

impl<C> Attributed for PendingOutput<C> {
    open spec fn prov(&self) -> ProvenanceView {
        self.source@
    }

    fn provenance(&self) -> (r: &Provenance) {
        self.source.provenance()
    }
}

impl<T> Attributed for PendingDibl<T> {
    open spec fn prov(&self) -> ProvenanceView {
        self.source@
    }

    fn provenance(&self) -> (r: &Provenance) {
        self.source.provenance()
    }
}

impl<C> PendingOutput<C> {
    pub fn name(&self) -> (r: &str)
        ensures
            r@ == self.source@.name,
    {
        self.source.name()
    }

    pub fn reason(&self) -> (r: PendingOutputReason)
        ensures
            r == self.reason,
    {
        self.reason
    }

    pub fn source_path(&self) -> (r: Option<&str>)
        ensures
            r.is_some() == self.source@.path.is_some(),
            r.is_some() ==> r.unwrap()@ == self.source@.path.unwrap(),
    {
        self.source.path()
    }
}

impl<T> PendingDibl<T> {
    pub fn name(&self) -> (r: &str)
        ensures
            r@ == self.source@.name,
    {
        self.source.name()
    }

    pub fn reason(&self) -> (r: PendingDiblReason)
        ensures
            r == self.reason,
    {
        self.reason
    }

    pub fn source_path(&self) -> (r: Option<&str>)
        ensures
            r.is_some() == self.source@.path.is_some(),
            r.is_some() ==> r.unwrap()@ == self.source@.path.unwrap(),
    {
        self.source.path()
    }
}

/// A selected-row mutation either has no target or carries the rejection that
/// the fitted-device lifecycle returned.
#[derive(Debug, Clone, Copy, PartialEq, Eq)]
pub enum SelectedMutationError<I, E> {
    NoDeviceSelected,
    Input(I),
    Edit(E),
}

#[derive(Debug, Clone, Copy, PartialEq, Eq)]
pub enum CvCommitError<I, E> {
    DeviceChanged,
    Mutation(SelectedMutationError<I, E>),
}

// ---------------------------------------------------------------------------
// Removal by mask
// ---------------------------------------------------------------------------

/// The elements of `s` whose mask bit is clear, in order.
pub open spec fn kept<X>(s: Seq<X>, mask: Seq<bool>) -> Seq<X>
    decreases s.len(),
{
    if s.len() == 0 {
        Seq::<X>::empty()
    } else {
        let p = kept(s.drop_last(), mask);
        if mask[s.len() - 1] {
            p
        } else {
            p.push(s.last())
        }
    }
}

/// How many of the first `k` mask bits are set.
pub open spec fn count_set(mask: Seq<bool>, k: int) -> nat
    decreases k,
{
    if k <= 0 {
        0
    } else {
        count_set(mask, k - 1) + if mask[k - 1] {
            1nat
        } else {
            0nat
        }
    }
}

/// Some row is checked.
pub open spec fn any_checked<D>(rows: Seq<DeviceEntry<D>>) -> bool {
    exists|j: int| 0 <= j < rows.len() && (#[trigger] rows[j]).checked_val()
}

/// The rows "remove" takes: the checked rows, or the selected row when none
/// is checked.
pub open spec fn removal_mask<D>(rows: Seq<DeviceEntry<D>>, selection: Option<usize>) -> Seq<bool> {
    Seq::new(
        rows.len(),
        |i: int|
            if any_checked(rows) {
                rows[i].checked_val()
            } else {
                selection == Some(i as usize)
            },
    )
}

/// The rows "keep checked" takes: every unchecked row.
pub open spec fn keep_mask<D>(rows: Seq<DeviceEntry<D>>) -> Seq<bool> {
    Seq::new(rows.len(), |i: int| !rows[i].checked_val())
}

/// Counting set bits of a mask only looks at the bits counted.
pub proof fn lemma_count_set_prefix(mask: Seq<bool>, k: int)
    requires
        0 <= k < mask.len(),
    ensures
        count_set(mask, k + 1) == count_set(mask.drop_last(), k) + if mask[k] {
            1nat
        } else {
            0nat
        },
        k + 1 == mask.len() ==> count_set(mask.drop_last(), k) == count_set(mask, k),
    decreases k,
{
    lemma_count_set_agree(mask, mask.drop_last(), k);
}

proof fn lemma_count_set_agree(a: Seq<bool>, b: Seq<bool>, k: int)
    requires
        0 <= k <= a.len(),
        k <= b.len(),
        forall|j: int| 0 <= j < k ==> a[j] == b[j],
    ensures
        count_set(a, k) == count_set(b, k),
    decreases k,
{
    if k > 0 {
        lemma_count_set_agree(a, b, k - 1);
    }
}

/// The row selected after removing the masked rows: the same row when it
/// survives, else the first survivor, and none when nothing survives.
pub open spec fn remapped_selection(sel: Option<usize>, mask: Seq<bool>) -> Option<usize> {
    if count_set(mask, mask.len() as int) == mask.len() {
        None
    } else {
        match sel {
            Some(i) if !mask[i as int] => Some((i - count_set(mask, i as int)) as usize),
            _ => Some(0usize),
        }
    }
}

pub proof fn lemma_count_set_bounds(mask: Seq<bool>, k: int)
    requires
        0 <= k <= mask.len(),
    ensures
        count_set(mask, k) <= k,
    decreases k,
{
    if k > 0 {
        lemma_count_set_bounds(mask, k - 1);
    }
}

pub proof fn lemma_count_set_mono(mask: Seq<bool>, j: int, k: int)
    requires
        0 <= j <= k <= mask.len(),
    ensures
        count_set(mask, j) <= count_set(mask, k),
        k - count_set(mask, k) >= j - count_set(mask, j),
    decreases k - j,
{
    if j < k {
        lemma_count_set_mono(mask, j, k - 1);
    }
}

/// The kept rows number the clear mask bits, and a surviving row `i` lands at
/// the count of clear bits before it.
pub proof fn lemma_kept<X>(s: Seq<X>, mask: Seq<bool>)
    requires
        s.len() <= mask.len(),
    ensures
        kept(s, mask).len() == s.len() - count_set(mask, s.len() as int),
        forall|i: int|
            0 <= i < s.len() && !mask[i] ==> #[trigger] kept(s, mask)[i - count_set(mask, i)]
                == s[i],
        forall|j: int|
            0 <= j < kept(s, mask).len() ==> exists|i: int|
                0 <= i < s.len() && !mask[i] && #[trigger] kept(s, mask)[j] == s[i],
    decreases s.len(),
{
    lemma_count_set_bounds(mask, s.len() as int);
    if s.len() > 0 {
        let t = s.drop_last();
        lemma_kept(t, mask);
        lemma_count_set_bounds(mask, t.len() as int);
        assert forall|i: int|
            0 <= i < s.len() && !mask[i] implies #[trigger] kept(s, mask)[i - count_set(mask, i)]
            == s[i] by {
            lemma_count_set_bounds(mask, i);
            if i < s.len() - 1 {
                lemma_count_set_mono(mask, i + 1, t.len() as int);
                assert(count_set(mask, i + 1) == count_set(mask, i));
                assert(kept(t, mask)[i - count_set(mask, i)] == t[i]);
            } else {
                assert(i - count_set(mask, i) == kept(t, mask).len());
            }
        }
        assert forall|j: int| 0 <= j < kept(s, mask).len() implies exists|i: int|
            0 <= i < s.len() && !mask[i] && #[trigger] kept(s, mask)[j] == s[i] by {
            if j < kept(t, mask).len() {
                let i = choose|i: int|
                    0 <= i < t.len() && !mask[i] && #[trigger] kept(t, mask)[j] == t[i];
                assert(kept(s, mask)[j] == s[i]);
            } else {
                assert(kept(s, mask)[j] == s[s.len() - 1]);
            }
        }
    }
}

/// Moves the unmasked rows of `v`, in order, into a fresh vector.
pub fn keep_unmasked<X>(v: Vec<X>, mask: &Vec<bool>) -> (r: Vec<X>)
    requires
        v@.len() == mask@.len(),
    ensures
        r@ == kept(v@, mask@),
{
    let ghost orig = v@;
    let mut rest = v;
    let mut out: Vec<X> = Vec::new();
    let mut k: usize = 0;
    let m = mask.len();
    assert(kept(orig.take(0), mask@) =~= Seq::<X>::empty());
    while rest.len() > 0
        invariant
            m == mask@.len(),
            orig.len() == mask@.len(),
            k <= orig.len(),
            rest@ =~= orig.skip(k as int),
            rest@.len() + k == orig.len(),
            out@ == kept(orig.take(k as int), mask@),
        decreases rest@.len(),
    {
        let x = rest.remove(0);
        proof {
            assert(x == orig[k as int]);
            assert(orig.take(k + 1).drop_last() =~= orig.take(k as int));
        }
        if !mask[k] {
            out.push(x);
        }
        k = k + 1;
    }
    assert(orig.take(k as int) =~= orig);
    out
}

/// `t` still names a live, unchanged row of `rows`: same identity, same
/// scientific revision.
pub open spec fn token_live<D>(rows: Seq<DeviceEntry<D>>, t: DeviceToken) -> bool {
    exists|i: int|
        0 <= i < rows.len() && (#[trigger] rows[i]).id_val() == t.id_val() && rows[i].revision_val()
            == t.revision_val()
}

/// The row that `t` names, when it is live.
pub open spec fn live_index<D>(rows: Seq<DeviceEntry<D>>, t: DeviceToken) -> int {
    choose|i: int|
        0 <= i < rows.len() && (#[trigger] rows[i]).id_val() == t.id_val() && rows[i].revision_val()
            == t.revision_val()
}

// ---------------------------------------------------------------------------
// The workspace state
// ---------------------------------------------------------------------------

/// Rows, pending measurements, selection and model menu of the Model Fit page.
pub struct ModelFitState<D, C, T> {
    devices: Vec<DeviceEntry<D>>,
    pending_outputs: Vec<PendingOutput<C>>,
    pending_dibls: Vec<PendingDibl<T>>,
    selected: Option<usize>,
    selected_model: usize,
    next_device_id: u64,
}

impl<D, C, T> ModelFitState<D, C, T> {
    pub closed spec fn rows(&self) -> Seq<DeviceEntry<D>> {
        self.devices@
    }

    pub closed spec fn outputs(&self) -> Seq<PendingOutput<C>> {
        self.pending_outputs@
    }

    pub closed spec fn dibls(&self) -> Seq<PendingDibl<T>> {
        self.pending_dibls@
    }

    pub closed spec fn selection(&self) -> Option<usize> {
        self.selected
    }

    pub closed spec fn model_index(&self) -> usize {
        self.selected_model
    }

    pub closed spec fn next_id(&self) -> u64 {
        self.next_device_id
    }

    /// The state invariant: a valid selection that exists exactly when rows
    /// exist, a registered model, coherent science in every row, and row
    /// identities that are distinct and below the next identity.
    pub closed spec fn wf(&self) -> bool {
        &&& (self.selected matches Some(i) ==> i < self.devices@.len())
        &&& (self.selected is Some <==> self.devices@.len() > 0)
        &&& self.selected_model < FIT_MODEL_COUNT
        &&& forall|i: int|
            0 <= i < self.devices@.len() ==> (#[trigger] self.devices@[i]).id.0
                < self.next_device_id && self.devices@[i].science.wf()
        &&& forall|i: int, j: int|
            0 <= i < j < self.devices@.len() ==> self.devices@[i].id.0 != self.devices@[j].id.0
    }

    pub fn new() -> (r: Self)
        ensures
            r.wf(),
            r.rows().len() == 0,
            r.outputs().len() == 0,
            r.dibls().len() == 0,
            r.selection() is None,
            r.model_index() == 0,
            r.next_id() == 0,
    {
        ModelFitState {
            devices: Vec::new(),
            pending_outputs: Vec::new(),
            pending_dibls: Vec::new(),
            selected: None,
            selected_model: 0,
            next_device_id: 0,
        }
    }

    /// The identity the next installed row will take.
    pub fn next_device_id(&self) -> (r: u64)
        ensures
            r == self.next_id(),
    {
        self.next_device_id
    }

    pub fn is_empty(&self) -> (r: bool)
        ensures
            r == (self.rows().len() == 0),
    {
        self.devices.len() == 0
    }

    pub fn devices(&self) -> (r: &[DeviceEntry<D>])
        ensures
            r@ == self.rows(),
    {
        self.devices.as_slice()
    }

    pub fn device_count(&self) -> (r: usize)
        ensures
            r == self.rows().len(),
    {
        self.devices.len()
    }

    pub fn pending_outputs(&self) -> (r: &[PendingOutput<C>])
        ensures
            r@ == self.outputs(),
    {
        self.pending_outputs.as_slice()
    }

    pub fn pending_dibls(&self) -> (r: &[PendingDibl<T>])
        ensures
            r@ == self.dibls(),
    {
        self.pending_dibls.as_slice()
    }

    pub fn has_checked_devices(&self) -> (r: bool)
        ensures
            r == exists|i: int| 0 <= i < self.rows().len() && (#[trigger] self.rows()[i]).checked_val(),
    {
        let mut i: usize = 0;
        while i < self.devices.len()
            invariant
                i <= self.devices@.len(),
                forall|j: int| 0 <= j < i ==> !(#[trigger] self.devices@[j]).checked,
            decreases self.devices@.len() - i,
        {
            if self.devices[i].checked {
                assert(self.rows()[i as int].checked_val());
                return true;
            }
            i = i + 1;
        }
        false
    }

    pub fn has_unchecked_devices(&self) -> (r: bool)
        ensures
            r == exists|i: int|
                0 <= i < self.rows().len() && !(#[trigger] self.rows()[i]).checked_val(),
    {
        let mut i: usize = 0;
        while i < self.devices.len()
            invariant
                i <= self.devices@.len(),
                forall|j: int| 0 <= j < i ==> (#[trigger] self.devices@[j]).checked,
            decreases self.devices@.len() - i,
        {
            if !self.devices[i].checked {
                assert(!self.rows()[i as int].checked_val());
                return true;
            }
            i = i + 1;
        }
        false
    }

    /// Ticks or clears one row's checkbox; only that checkbox changes.
    pub fn set_device_checked(&mut self, idx: usize, checked: bool) -> (r: bool)
        requires
            old(self).wf(),
        ensures
            final(self).wf(),
            r == (idx < old(self).rows().len()),
            final(self).rows().len() == old(self).rows().len(),
            forall|i: int|
                0 <= i < old(self).rows().len() ==> {
                    &&& (#[trigger] final(self).rows()[i]).id_val() == old(self).rows()[i].id_val()
                    &&& final(self).rows()[i].revision_val() == old(self).rows()[i].revision_val()
                    &&& final(self).rows()[i].science_spec() == old(self).rows()[i].science_spec()
                    &&& final(self).rows()[i].checked_val() == if i == idx {
                        checked
                    } else {
                        old(self).rows()[i].checked_val()
                    }
                },
            final(self).selection() == old(self).selection(),
            final(self).model_index() == old(self).model_index(),
            final(self).outputs() == old(self).outputs(),
            final(self).dibls() == old(self).dibls(),
            final(self).next_id() == old(self).next_id(),
    {
        if idx >= self.devices.len() {
            return false;
        }
        let mut entries: Vec<DeviceEntry<D>> = Vec::new();
        std::mem::swap(&mut entries, &mut self.devices);
        let mut tail = entries.split_off(idx);
        let mut entry = tail.remove(0);
        entry.checked = checked;
        entries.push(entry);
        entries.append(&mut tail);
        self.devices = entries;
        proof {
            assert forall|i: int| 0 <= i < self.devices@.len() implies (#[trigger]
            self.devices@[i]).id.0 < self.next_device_id && self.devices@[i].science.wf() by {
                assert(self.devices@[i].id == old(self).devices@[i].id);
            }
            assert forall|i: int, j: int|
                0 <= i < j < self.devices@.len() implies self.devices@[i].id.0
                != self.devices@[j].id.0 by {
                assert(self.devices@[i].id == old(self).devices@[i].id);
                assert(self.devices@[j].id == old(self).devices@[j].id);
            }
        }
        true
    }

    pub fn selected_index(&self) -> (r: Option<usize>)
        ensures
            r == self.selection(),
    {
        self.selected
    }

    /// Selects row `idx`; an index past the last row is ignored.
    pub fn select(&mut self, idx: usize)
        requires
            old(self).wf(),
        ensures
            final(self).wf(),
            final(self).selection() == if idx < old(self).rows().len() {
                Some(idx)
            } else {
                old(self).selection()
            },
            final(self).rows() == old(self).rows(),
            final(self).outputs() == old(self).outputs(),
            final(self).dibls() == old(self).dibls(),
            final(self).model_index() == old(self).model_index(),
            final(self).next_id() == old(self).next_id(),
    {
        if idx < self.devices.len() {
            self.selected = Some(idx);
        }
    }

    pub fn selected_model(&self) -> (r: usize)
        ensures
            r == self.model_index(),
    {
        self.selected_model
    }

    pub fn selected_fit_model(&self) -> (r: FitModel)
        requires
            self.wf(),
        ensures
            r == model_at(self.model_index() as int),
    {
        if self.selected_model == 0 {
            FitModel::Aostft
        } else {
            FitModel::Level62
        }
    }

    pub fn selected_model_is_level62(&self) -> (r: bool)
        requires
            self.wf(),
        ensures
            r == (model_at(self.model_index() as int) == FitModel::Level62),
    {
        match self.selected_fit_model() {
            FitModel::Level62 => true,
            FitModel::Aostft => false,
        }
    }

    /// Chooses menu entry `idx`; indices outside the registry are refused.
    pub fn set_selected_model(&mut self, idx: usize) -> (r: bool)
        requires
            old(self).wf(),
        ensures
            final(self).wf(),
            r == (idx < FIT_MODEL_COUNT),
            final(self).model_index() == if r {
                idx
            } else {
                old(self).model_index()
            },
            final(self).rows() == old(self).rows(),
            final(self).selection() == old(self).selection(),
            final(self).outputs() == old(self).outputs(),
            final(self).dibls() == old(self).dibls(),
            final(self).next_id() == old(self).next_id(),
    {
        if idx >= FIT_MODEL_COUNT {
            return false;
        }
        self.selected_model = idx;
        true
    }

    pub fn selected_entry(&self) -> (r: Option<&DeviceEntry<D>>)
        requires
            self.wf(),
        ensures
            r is Some == self.selection() is Some,
            r matches Some(e) ==> *e == self.rows()[self.selection().unwrap() as int],
    {
        match self.selected {
            Some(i) => Some(&self.devices[i]),
            None => None,
        }
    }

    pub fn selected_device_id(&self) -> (r: Option<DeviceId>)
        requires
            self.wf(),
        ensures
            r is Some == self.selection() is Some,
            r matches Some(id) ==> id.val() == self.rows()[self.selection().unwrap() as int].id_val(),
    {
        match self.selected {
            Some(i) => Some(self.devices[i].id),
            None => None,
        }
    }

    pub fn selected_token(&self) -> (r: Option<DeviceToken>)
        requires
            self.wf(),
        ensures
            r is Some == self.selection() is Some,
            r matches Some(t) ==> t.id_val() == self.rows()[self.selection().unwrap() as int].id_val()
                && t.revision_val() == self.rows()[self.selection().unwrap() as int].revision_val(),
    {
        match self.selected {
            Some(i) => Some(self.devices[i].token()),
            None => None,
        }
    }

    /// Whether a row already carries the primary source `source`.
    pub fn has_primary(&self, source: &PrimaryTransferSource) -> (r: bool)
        ensures
            r == exists|i: int|
                0 <= i < self.rows().len() && same_named(
                    (#[trigger] self.rows()[i]).science_spec().primary(),
                    source@,
                ),
    {
        let mut i: usize = 0;
        while i < self.devices.len()
            invariant
                i <= self.devices@.len(),
                forall|j: int|
                    0 <= j < i ==> !same_named(
                        (#[trigger] self.devices@[j]).science.primary_source@,
                        source@,
                    ),
            decreases self.devices@.len() - i,
        {
            if self.devices[i].science.primary_source.same_as(source) {
                return true;
            }
            i = i + 1;
        }
        false
    }

    /// Installs fitted science as a new row unless its primary file is already
    /// loaded. A refused install, and an already-loaded one, change nothing.
    pub fn install_fitted_device(
        &mut self,
        device: D,
        facts: DeviceFacts,
        primary_source: PrimaryTransferSource,
        output_source: Option<OutputSource>,
    ) -> (r: Result<DeviceInstallOutcome, DeviceInstallError>)
        requires
            old(self).wf(),
            science_error(
                facts.name@,
                facts.has_output_curves,
                facts.has_second_transfer,
                primary_source@,
                output_source is Some,
                false,
            ) is None && !(exists|i: int|
                0 <= i < old(self).rows().len() && same_named(
                    (#[trigger] old(self).rows()[i]).science_spec().primary(),
                    primary_source@,
                )) ==> old(self).next_id() < u64::MAX,
        ensures
            final(self).wf(),
            final(self).outputs() == old(self).outputs(),
            final(self).dibls() == old(self).dibls(),
            final(self).model_index() == old(self).model_index(),
            r is Err <==> science_error(
                facts.name@,
                facts.has_output_curves,
                facts.has_second_transfer,
                primary_source@,
                output_source is Some,
                false,
            ) is Some,
            r matches Err(e) ==> Some(e) == science_error(
                facts.name@,
                facts.has_output_curves,
                facts.has_second_transfer,
                primary_source@,
                output_source is Some,
                false,
            ),
            r is Ok ==> (r == Ok::<DeviceInstallOutcome, DeviceInstallError>(
                DeviceInstallOutcome::AlreadyLoaded,
            ) <==> exists|i: int|
                0 <= i < old(self).rows().len() && same_named(
                    (#[trigger] old(self).rows()[i]).science_spec().primary(),
                    primary_source@,
                )),
            r != Ok::<DeviceInstallOutcome, DeviceInstallError>(DeviceInstallOutcome::Installed)
                ==> {
                &&& final(self).rows() == old(self).rows()
                &&& final(self).selection() == old(self).selection()
                &&& final(self).next_id() == old(self).next_id()
            },
            r == Ok::<DeviceInstallOutcome, DeviceInstallError>(DeviceInstallOutcome::Installed)
                ==> {
                let e = final(self).rows().last();
                &&& final(self).rows().drop_last() == old(self).rows()
                &&& final(self).rows().len() == old(self).rows().len() + 1
                &&& e.id_val() == old(self).next_id()
                &&& e.revision_val() == 0
                &&& !e.checked_val()
                &&& e.science_spec().device_spec() == device
                &&& e.science_spec().primary() == primary_source@
                &&& e.science_spec().output() == source_view_opt(output_source)
                &&& e.science_spec().dibl() is None
                &&& final(self).next_id() == old(self).next_id() + 1
                &&& final(self).selection() == if old(self).selection() is None {
                    Some(old(self).rows().len() as usize)
                } else {
                    old(self).selection()
                }
            },
    {
        let science = match DeviceScience::new(device, facts, primary_source, output_source, None) {
            Ok(s) => s,
            Err(e) => {
                return Err(e);
            },
        };
        if self.has_primary(&science.primary_source) {
            return Ok(DeviceInstallOutcome::AlreadyLoaded);
        }
        let id = DeviceId(self.next_device_id);
        self.next_device_id = self.next_device_id + 1;
        self.devices.push(
            DeviceEntry { id, revision: ScientificRevision(0), checked: false, science },
        );
        if self.selected.is_none() {
            self.selected = Some(self.devices.len() - 1);
        }
        proof {
            assert(self.devices@.drop_last() =~= old(self).devices@);
            assert forall|i: int| 0 <= i < self.devices@.len() implies (#[trigger]
            self.devices@[i]).id.0 < self.next_device_id && self.devices@[i].science.wf() by {
                if i < old(self).devices@.len() {
                    assert(self.devices@[i] == old(self).devices@[i]);
                }
            }
            assert forall|i: int, j: int|
                0 <= i < j < self.devices@.len() implies self.devices@[i].id.0
                != self.devices@[j].id.0 by {
                assert(self.devices@[i] == old(self).devices@[i]);
                if j < old(self).devices@.len() {
                    assert(self.devices@[j] == old(self).devices@[j]);
                }
            }
        }
        Ok(DeviceInstallOutcome::Installed)
    }

    /// Drops every row, pending measurement and the selection. Identities keep
    /// counting, so a later row never reuses an earlier identity.
    pub fn clear(&mut self)
        requires
            old(self).wf(),
        ensures
            final(self).wf(),
            final(self).rows().len() == 0,
            final(self).outputs().len() == 0,
            final(self).dibls().len() == 0,
            final(self).selection() is None,
            final(self).model_index() == old(self).model_index(),
            final(self).next_id() == old(self).next_id(),
    {
        self.devices = Vec::new();
        self.pending_outputs = Vec::new();
        self.pending_dibls = Vec::new();
        self.selected = None;
    }

    /// Removes row `idx`, when there is one.
    pub fn remove_device(&mut self, idx: usize) -> (r: bool)
        requires
            old(self).wf(),
        ensures
            final(self).wf(),
            r == (idx < old(self).rows().len()),
            !r ==> final(self).rows() == old(self).rows() && final(self).selection() == old(
                self,
            ).selection(),
            r ==> final(self).rows() == kept(
                old(self).rows(),
                Seq::new(old(self).rows().len(), |i: int| i == idx),
            ) && final(self).selection() == remapped_selection(
                old(self).selection(),
                Seq::new(old(self).rows().len(), |i: int| i == idx),
            ),
            final(self).outputs() == old(self).outputs(),
            final(self).dibls() == old(self).dibls(),
            final(self).model_index() == old(self).model_index(),
            final(self).next_id() == old(self).next_id(),
    {
        let n = self.devices.len();
        if idx >= n {
            return false;
        }
        let mut mask: Vec<bool> = Vec::new();
        let mut i: usize = 0;
        while i < n
            invariant
                i <= n,
                idx < n,
                n == self.devices@.len(),
                mask@.len() == i,
                forall|j: int| 0 <= j < i ==> mask@[j] == (j == idx),
                count_set(mask@, i as int) == if idx < i {
                    1nat
                } else {
                    0nat
                },
            decreases n - i,
        {
            let ghost before = mask@;
            mask.push(i == idx);
            proof {
                assert(mask@.drop_last() =~= before);
                lemma_count_set_prefix(mask@, i as int);
            }
            i = i + 1;
        }
        proof {
            assert(mask@ =~= Seq::new(n as nat, |j: int| j == idx));
        }
        let removed = self.remove_devices(&mask);
        removed == 1
    }

    /// Removes the rows whose mask bit is set and returns how many went. The
    /// selection follows its row when it survives, else moves to the first
    /// survivor; with no row removed nothing changes.
    pub fn remove_devices(&mut self, remove: &Vec<bool>) -> (r: usize)
        requires
            old(self).wf(),
            remove@.len() == old(self).rows().len(),
        ensures
            final(self).wf(),
            r == count_set(remove@, remove@.len() as int),
            final(self).rows() == kept(old(self).rows(), remove@),
            final(self).selection() == if r == 0 {
                old(self).selection()
            } else {
                remapped_selection(old(self).selection(), remove@)
            },
            final(self).outputs() == old(self).outputs(),
            final(self).dibls() == old(self).dibls(),
            final(self).model_index() == old(self).model_index(),
            final(self).next_id() == old(self).next_id(),
    {
        let n = remove.len();
        let mut removed: usize = 0;
        let mut i: usize = 0;
        while i < n
            invariant
                n == remove@.len(),
                i <= n,
                removed == count_set(remove@, i as int),
                removed <= i,
            decreases n - i,
        {
            if remove[i] {
                removed = removed + 1;
            }
            i = i + 1;
        }
        proof {
            lemma_kept(old(self).devices@, remove@);
        }
        if removed == 0 {
            assert(old(self).devices@ =~= kept(old(self).devices@, remove@)) by {
                lemma_kept_none(old(self).devices@, remove@);
            }
            return 0;
        }
        let mut selected: Option<usize> = None;
        match self.selected {
            Some(idx) => {
                if !remove[idx] {
                    let mut before: usize = 0;
                    let mut j: usize = 0;
                    while j < idx
                        invariant
                            idx < n,
                            n == remove@.len(),
                            j <= idx,
                            before == count_set(remove@, j as int),
                            before <= j,
                        decreases idx - j,
                    {
                        if remove[j] {
                            before = before + 1;
                        }
                        j = j + 1;
                    }
                    selected = Some(idx - before);
                }
            },
            None => {},
        }
        let mut entries: Vec<DeviceEntry<D>> = Vec::new();
        std::mem::swap(&mut entries, &mut self.devices);
        self.devices = keep_unmasked(entries, remove);
        self.selected = if self.devices.len() == 0 {
            None
        } else {
            match selected {
                Some(s) => Some(s),
                None => Some(0),
            }
        };
        proof {
            let old_rows = old(self).devices@;
            let new_rows = self.devices@;
            assert(new_rows == kept(old_rows, remove@));
            lemma_count_set_bounds(remove@, n as int);
            if let Some(idx) = old(self).selected {
                if !remove@[idx as int] {
                    lemma_count_set_mono(remove@, idx + 1, n as int);
                    lemma_count_set_bounds(remove@, idx as int);
                    assert(count_set(remove@, idx + 1) == count_set(remove@, idx as int));
                    assert(new_rows[idx - count_set(remove@, idx as int)] == old_rows[idx as int]);
                }
            }
            assert forall|i: int| 0 <= i < new_rows.len() implies (#[trigger]
            new_rows[i]).id.0 < self.next_device_id && new_rows[i].science.wf() by {
                let k = choose|k: int|
                    0 <= k < old_rows.len() && !remove@[k] && #[trigger] kept(old_rows, remove@)[i]
                        == old_rows[k];
            }
            assert forall|i: int, j: int|
                0 <= i < j < new_rows.len() implies new_rows[i].id.0 != new_rows[j].id.0 by {
                lemma_kept_order(old_rows, remove@, i, j);
            }
        }
        removed
    }

    /// Builds the removal mask: the checked rows when any row is checked, else
    /// the selected row.
    fn selected_or_checked_mask(&self) -> (r: Vec<bool>)
        requires
            self.wf(),
        ensures
            r@.len() == self.rows().len(),
            forall|i: int|
                0 <= i < r@.len() ==> #[trigger] r@[i] == if exists|j: int|
                    0 <= j < self.rows().len() && (#[trigger] self.rows()[j]).checked_val() {
                    self.rows()[i].checked_val()
                } else {
                    self.selection() == Some(i as usize)
                },
    {
        let has_checked = self.has_checked_devices();
        let mut mask: Vec<bool> = Vec::new();
        let mut i: usize = 0;
        while i < self.devices.len()
            invariant
                i <= self.devices@.len(),
                mask@.len() == i,
                has_checked == exists|j: int|
                    0 <= j < self.rows().len() && (#[trigger] self.rows()[j]).checked_val(),
                forall|k: int|
                    0 <= k < i ==> #[trigger] mask@[k] == if has_checked {
                        self.rows()[k].checked_val()
                    } else {
                        self.selection() == Some(k as usize)
                    },
            decreases self.devices@.len() - i,
        {
            let bit = if has_checked {
                self.devices[i].checked
            } else {
                match self.selected {
                    Some(s) => s == i,
                    None => false,
                }
            };
            mask.push(bit);
            i = i + 1;
        }
        mask
    }

    /// Removes the checked rows, or the selected row when none is checked.
    pub fn remove_selected_or_checked(&mut self) -> (r: usize)
        requires
            old(self).wf(),
        ensures
            final(self).wf(),
            r == count_set(
                removal_mask(old(self).rows(), old(self).selection()),
                old(self).rows().len() as int,
            ),
            final(self).rows() == kept(
                old(self).rows(),
                removal_mask(old(self).rows(), old(self).selection()),
            ),
            final(self).selection() == if r == 0 {
                old(self).selection()
            } else {
                remapped_selection(
                    old(self).selection(),
                    removal_mask(old(self).rows(), old(self).selection()),
                )
            },
            final(self).outputs() == old(self).outputs(),
            final(self).dibls() == old(self).dibls(),
            final(self).model_index() == old(self).model_index(),
            final(self).next_id() == old(self).next_id(),
    {
        let mask = self.selected_or_checked_mask();
        proof {
            assert(mask@ =~= removal_mask(old(self).rows(), old(self).selection()));
        }
        let r = self.remove_devices(&mask);
        r
    }

    /// Keeps only the checked rows; `None` (and no change) when no row is
    /// checked.
    pub fn keep_checked_devices(&mut self) -> (r: Option<usize>)
        requires
            old(self).wf(),
        ensures
            final(self).wf(),
            r is None <==> !any_checked(old(self).rows()),
            r is None ==> final(self).rows() == old(self).rows() && final(self).selection() == old(
                self,
            ).selection(),
            r matches Some(n) ==> {
                &&& n == count_set(keep_mask(old(self).rows()), old(self).rows().len() as int)
                &&& final(self).rows() == kept(old(self).rows(), keep_mask(old(self).rows()))
                &&& final(self).selection() == if n == 0 {
                    old(self).selection()
                } else {
                    remapped_selection(old(self).selection(), keep_mask(old(self).rows()))
                }
            },
            final(self).outputs() == old(self).outputs(),
            final(self).dibls() == old(self).dibls(),
            final(self).model_index() == old(self).model_index(),
            final(self).next_id() == old(self).next_id(),
    {
        if !self.has_checked_devices() {
            return None;
        }
        let mut mask: Vec<bool> = Vec::new();
        let mut i: usize = 0;
        while i < self.devices.len()
            invariant
                i <= self.devices@.len(),
                mask@.len() == i,
                forall|k: int| 0 <= k < i ==> #[trigger] mask@[k] == !self.rows()[k].checked_val(),
            decreases self.devices@.len() - i,
        {
            mask.push(!self.devices[i].checked);
            i = i + 1;
        }
        proof {
            assert(mask@ =~= keep_mask(old(self).rows()));
        }
        let n = self.remove_devices(&mask);
        Some(n)
    }

    /// Removes pending output `idx`; an index past the end is ignored.
    pub fn remove_pending_output(&mut self, idx: usize) -> (r: bool)
        requires
            old(self).wf(),
        ensures
            final(self).wf(),
            r == (idx < old(self).outputs().len()),
            final(self).outputs() == if r {
                old(self).outputs().remove(idx as int)
            } else {
                old(self).outputs()
            },
            final(self).rows() == old(self).rows(),
            final(self).dibls() == old(self).dibls(),
            final(self).selection() == old(self).selection(),
            final(self).model_index() == old(self).model_index(),
            final(self).next_id() == old(self).next_id(),
    {
        if idx >= self.pending_outputs.len() {
            return false;
        }
        self.pending_outputs.remove(idx);
        true
    }

    /// Removes pending DIBL measurement `idx`; an index past the end is ignored.
    pub fn remove_pending_dibl(&mut self, idx: usize) -> (r: bool)
        requires
            old(self).wf(),
        ensures
            final(self).wf(),
            r == (idx < old(self).dibls().len()),
            final(self).dibls() == if r {
                old(self).dibls().remove(idx as int)
            } else {
                old(self).dibls()
            },
            final(self).rows() == old(self).rows(),
            final(self).outputs() == old(self).outputs(),
            final(self).selection() == old(self).selection(),
            final(self).model_index() == old(self).model_index(),
            final(self).next_id() == old(self).next_id(),
    {
        if idx >= self.pending_dibls.len() {
            return false;
        }
        self.pending_dibls.remove(idx);
        true
    }

    /// Keeps output curves pending, replacing any pending rows of the same file.
    pub fn add_pending_output(
        &mut self,
        source: OutputSource,
        curves: C,
        reason: PendingOutputReason,
    )
        requires
            old(self).wf(),
        ensures
            final(self).wf(),
            final(self).outputs() == upserted(
                old(self).outputs(),
                PendingOutput { source, curves, reason },
            ),
            final(self).rows() == old(self).rows(),
            final(self).dibls() == old(self).dibls(),
            final(self).selection() == old(self).selection(),
            final(self).model_index() == old(self).model_index(),
            final(self).next_id() == old(self).next_id(),
    {
        let pending = PendingOutput { source, curves, reason };
        upsert_match_set(&mut self.pending_outputs, pending);
    }

    /// Keeps a second transfer pending, replacing pending rows of the same file.
    pub fn add_pending_dibl(&mut self, source: DiblSource, second: T, reason: PendingDiblReason)
        requires
            old(self).wf(),
        ensures
            final(self).wf(),
            final(self).dibls() == upserted(
                old(self).dibls(),
                PendingDibl { source, second, reason },
            ),
            final(self).rows() == old(self).rows(),
            final(self).outputs() == old(self).outputs(),
            final(self).selection() == old(self).selection(),
            final(self).model_index() == old(self).model_index(),
            final(self).next_id() == old(self).next_id(),
    {
        let pending = PendingDibl { source, second, reason };
        upsert_match_set(&mut self.pending_dibls, pending);
    }

    /// The row that `target` captured, if it is still live and unchanged:
    /// same identity and same scientific revision.
    pub fn current_index(&self, target: DeviceToken) -> (r: Option<usize>)
        requires
            self.wf(),
        ensures
            r is Some <==> token_live(self.rows(), target),
            r matches Some(i) ==> i == live_index(self.rows(), target),
            r matches Some(i) ==> i < self.rows().len() && self.rows()[i as int].id_val()
                == target.id_val() && self.rows()[i as int].revision_val()
                == target.revision_val(),
            r is None ==> forall|i: int|
                0 <= i < self.rows().len() ==> !((#[trigger] self.rows()[i]).id_val()
                    == target.id_val() && self.rows()[i].revision_val() == target.revision_val()),
    {
        let mut i: usize = 0;
        while i < self.devices.len()
            invariant
                self.wf(),
                i <= self.devices@.len(),
                forall|j: int|
                    0 <= j < i ==> (#[trigger] self.devices@[j]).id.0 != target.id.0,
            decreases self.devices@.len() - i,
        {
            if self.devices[i].id.0 == target.id.0 {
                if self.devices[i].revision.0 == target.revision.0 {
                    return Some(i);
                }
                proof {
                    assert forall|j: int|
                        0 <= j < self.devices@.len() && (#[trigger] self.devices@[j]).id.0
                            == target.id.0 implies j == i by {
                        if j != i {
                            if j < i {
                                assert(self.devices@[j].id.0 != self.devices@[i as int].id.0);
                            } else {
                                assert(self.devices@[i as int].id.0 != self.devices@[j].id.0);
                            }
                        }
                    }
                }
                return None;
            }
            i = i + 1;
        }
        None
    }

    /// Commits an edited device value to row `idx`. The revision advances only
    /// when the edit changed the science; identity, checkbox, provenance and
    /// every other row stay as they were.
    pub fn commit_device_at(&mut self, idx: usize, device: D, changed: bool)
        requires
            old(self).wf(),
            idx < old(self).rows().len(),
            changed ==> old(self).rows()[idx as int].revision_val() < u64::MAX,
        ensures
            final(self).wf(),
            final(self).rows().len() == old(self).rows().len(),
            forall|i: int|
                0 <= i < old(self).rows().len() && i != idx ==> #[trigger] final(self).rows()[i]
                    == old(self).rows()[i],
            final(self).rows()[idx as int].id_val() == old(self).rows()[idx as int].id_val(),
            final(self).rows()[idx as int].checked_val() == old(
                self,
            ).rows()[idx as int].checked_val(),
            final(self).rows()[idx as int].revision_val() == old(
                self,
            ).rows()[idx as int].revision_val() + if changed {
                1int
            } else {
                0int
            },
            final(self).rows()[idx as int].science_spec().device_spec() == device,
            final(self).rows()[idx as int].science_spec().primary() == old(
                self,
            ).rows()[idx as int].science_spec().primary(),
            final(self).rows()[idx as int].science_spec().output() == old(
                self,
            ).rows()[idx as int].science_spec().output(),
            final(self).rows()[idx as int].science_spec().dibl() == old(
                self,
            ).rows()[idx as int].science_spec().dibl(),
            final(self).selection() == old(self).selection(),
            final(self).outputs() == old(self).outputs(),
            final(self).dibls() == old(self).dibls(),
            final(self).model_index() == old(self).model_index(),
            final(self).next_id() == old(self).next_id(),
    {
        let mut entries: Vec<DeviceEntry<D>> = Vec::new();
        std::mem::swap(&mut entries, &mut self.devices);
        let mut tail = entries.split_off(idx);
        let mut entry = tail.remove(0);
        entry.science.device = device;
        if changed {
            entry.revision = ScientificRevision(entry.revision.0 + 1);
        }
        entries.push(entry);
        entries.append(&mut tail);
        self.devices = entries;
        proof {
            assert forall|i: int| 0 <= i < self.devices@.len() implies (#[trigger]
            self.devices@[i]).id.0 < self.next_device_id && self.devices@[i].science.wf() by {
                if i != idx {
                    assert(self.devices@[i] == old(self).devices@[i]);
                }
            }
            assert forall|i: int, j: int|
                0 <= i < j < self.devices@.len() implies self.devices@[i].id.0
                != self.devices@[j].id.0 by {
                assert(self.devices@[i].id == old(self).devices@[i].id);
                assert(self.devices@[j].id == old(self).devices@[j].id);
            }
        }
    }

    /// Commits a whole science value to row `idx`, advancing its revision.
    pub fn commit_science_at(&mut self, idx: usize, science: DeviceScience<D>)
        requires
            old(self).wf(),
            idx < old(self).rows().len(),
            science.wf(),
            old(self).rows()[idx as int].revision_val() < u64::MAX,
        ensures
            final(self).wf(),
            final(self).rows() == old(self).rows().update(
                idx as int,
                old(self).rows()[idx as int].with_science(science),
            ),
            final(self).selection() == old(self).selection(),
            final(self).outputs() == old(self).outputs(),
            final(self).dibls() == old(self).dibls(),
            final(self).model_index() == old(self).model_index(),
            final(self).next_id() == old(self).next_id(),
    {
        let mut entries: Vec<DeviceEntry<D>> = Vec::new();
        std::mem::swap(&mut entries, &mut self.devices);
        let mut tail = entries.split_off(idx);
        let mut entry = tail.remove(0);
        entry.science = science;
        entry.revision = ScientificRevision(entry.revision.0 + 1);
        entries.push(entry);
        entries.append(&mut tail);
        self.devices = entries;
        proof {
            assert(self.devices@ =~= old(self).devices@.update(
                idx as int,
                old(self).devices@[idx as int].with_science(science),
            ));
            assert forall|i: int| 0 <= i < self.devices@.len() implies (#[trigger]
            self.devices@[i]).id.0 < self.next_device_id && self.devices@[i].science.wf() by {
                if i != idx {
                    assert(self.devices@[i] == old(self).devices@[i]);
                }
            }
            assert forall|i: int, j: int|
                0 <= i < j < self.devices@.len() implies self.devices@[i].id.0
                != self.devices@[j].id.0 by {
                assert(self.devices@[i].id == old(self).devices@[i].id);
                assert(self.devices@[j].id == old(self).devices@[j].id);
            }
        }
    }

    /// Applies the pending-output effects of one commit.
    pub fn apply_output_effects(&mut self, effects: Vec<PendingEffect<OutputSource, PendingOutput<C>>>)
        requires
            old(self).wf(),
        ensures
            final(self).wf(),
            final(self).outputs() == pending_after(old(self).outputs(), effects@),
            final(self).rows() == old(self).rows(),
            final(self).selection() == old(self).selection(),
            final(self).dibls() == old(self).dibls(),
            final(self).model_index() == old(self).model_index(),
            final(self).next_id() == old(self).next_id(),
    {
        apply_pending_effects(&mut self.pending_outputs, effects);
    }

    /// Applies the pending-DIBL effects of one commit.
    pub fn apply_dibl_effects(&mut self, effects: Vec<PendingEffect<DiblSource, PendingDibl<T>>>)
        requires
            old(self).wf(),
        ensures
            final(self).wf(),
            final(self).dibls() == pending_after(old(self).dibls(), effects@),
            final(self).rows() == old(self).rows(),
            final(self).selection() == old(self).selection(),
            final(self).outputs() == old(self).outputs(),
            final(self).model_index() == old(self).model_index(),
            final(self).next_id() == old(self).next_id(),
    {
        apply_pending_effects(&mut self.pending_dibls, effects);
    }

    /// Identities are never reused: every row's identity is below the next
    /// one handed out, which installing a row takes and advances and which
    /// clearing or removing rows never lowers.
    pub proof fn law_identities_below_next(&self)
        requires
            self.wf(),
        ensures
            forall|i: int| 0 <= i < self.rows().len() ==> (#[trigger] self.rows()[i]).id_val() < self.next_id(),
    {
    }

    /// What the state invariant says of each row: coherent science and an
    /// identity no other row shares.
    pub proof fn lemma_wf_rows(&self)
        requires
            self.wf(),
        ensures
            forall|i: int|
                0 <= i < self.rows().len() ==> (#[trigger] self.rows()[i]).science_spec().wf(),
            forall|i: int, j: int|
                0 <= i < self.rows().len() && 0 <= j < self.rows().len() && i != j
                    ==> self.rows()[i].id_val() != self.rows()[j].id_val(),
            self.selection() matches Some(i) ==> i < self.rows().len(),
            self.selection() is Some <==> self.rows().len() > 0,
    {
        assert forall|i: int, j: int|
            0 <= i < self.rows().len() && 0 <= j < self.rows().len() && i != j
                implies self.rows()[i].id_val() != self.rows()[j].id_val() by {
            if i < j {
                assert(self.devices@[i].id.0 != self.devices@[j].id.0);
            } else {
                assert(self.devices@[j].id.0 != self.devices@[i].id.0);
            }
        }
    }

    /// The row a C-V result goes to: the row of the token captured when the
    /// file was chosen, while its identity and revision are unchanged.
    pub fn cv_target<I, E>(&self, target: Option<DeviceToken>) -> (r: Result<usize, CvCommitError<I, E>>)
        requires
            self.wf(),
        ensures
            target is None ==> r == Err::<usize, CvCommitError<I, E>>(
                CvCommitError::Mutation(SelectedMutationError::NoDeviceSelected),
            ),
            target matches Some(t) ==> (r is Ok <==> token_live(self.rows(), t)),
            target matches Some(t) && !token_live(self.rows(), t) ==> r == Err::<
                usize,
                CvCommitError<I, E>,
            >(CvCommitError::DeviceChanged),
            r matches Ok(i) ==> i == live_index(self.rows(), target.unwrap()) && i < self.rows().len(),
    {
        let t = match target {
            Some(t) => t,
            None => {
                return Err(CvCommitError::Mutation(SelectedMutationError::NoDeviceSelected));
            },
        };
        match self.current_index(t) {
            Some(i) => Ok(i),
            None => Err(CvCommitError::DeviceChanged),
        }
    }

    /// Commits a C-V result: the token captured when the file was chosen must
    /// still name a live row, then the science library's answer for that
    /// row's device decides. A refused value changes nothing; an accepted one
    /// replaces the device, and the revision advances only when the value
    /// changed.
    pub fn commit_cv_result<I, E>(&mut self, target: Option<DeviceToken>, outcome: Result<(D, bool), I>) -> (r:
        Result<usize, CvCommitError<I, E>>)
        requires
            old(self).wf(),
            target is Some && token_live(old(self).rows(), target.unwrap()) && outcome is Ok
                && outcome->Ok_0.1 ==> old(self).rows()[live_index(
                old(self).rows(),
                target.unwrap(),
            )].revision_val() < u64::MAX,
        ensures
            final(self).wf(),
            target is None ==> r == Err::<usize, CvCommitError<I, E>>(
                CvCommitError::Mutation(SelectedMutationError::NoDeviceSelected),
            ),
            target matches Some(t) && !token_live(old(self).rows(), t) ==> r == Err::<
                usize,
                CvCommitError<I, E>,
            >(CvCommitError::DeviceChanged),
            target is Some && token_live(old(self).rows(), target.unwrap()) ==> (match outcome {
                Err(e) => r == Err::<usize, CvCommitError<I, E>>(
                    CvCommitError::Mutation(SelectedMutationError::Input(e)),
                ),
                Ok(_) => r is Ok,
            }),
            r is Err ==> *final(self) == *old(self),
            r matches Ok(idx) ==> {
                let t = target.unwrap();
                let i = idx as int;
                &&& target is Some
                &&& token_live(old(self).rows(), t)
                &&& outcome is Ok
                &&& i == live_index(old(self).rows(), t)
                &&& i < old(self).rows().len()
                &&& final(self).rows().len() == old(self).rows().len()
                &&& forall|k: int|
                    0 <= k < old(self).rows().len() && k != i ==> #[trigger] final(self).rows()[k]
                        == old(self).rows()[k]
                &&& final(self).rows()[i].id_val() == old(self).rows()[i].id_val()
                &&& final(self).rows()[i].checked_val() == old(self).rows()[i].checked_val()
                &&& final(self).rows()[i].science_spec().device_spec() == outcome->Ok_0.0
                &&& final(self).rows()[i].revision_val() == old(self).rows()[i].revision_val() + if outcome->Ok_0.1 {
                    1int
                } else {
                    0int
                }
                &&& final(self).selection() == old(self).selection()
                &&& final(self).outputs() == old(self).outputs()
                &&& final(self).dibls() == old(self).dibls()
                &&& final(self).next_id() == old(self).next_id()
            },
    {
        let idx = match self.cv_target::<I, E>(target) {
            Ok(idx) => idx,
            Err(e) => {
                return Err(e);
            },
        };
        match outcome {
            Ok((device, changed)) => {
                self.commit_device_at(idx, device, changed);
                Ok(idx)
            },
            Err(e) => Err(CvCommitError::Mutation(SelectedMutationError::Input(e))),
        }
    }

    /// Commits the science library's answer to an edit of the selected row
    /// (a new Cox, a manual fit): without a selection nothing changes and
    /// the edit has no target; a refused value changes nothing; an accepted
    /// one replaces the device, and the revision advances only when the value
    /// changed.
    pub fn commit_selected_outcome<I, E>(&mut self, outcome: Result<(D, bool), I>) -> (r: Result<
        (),
        SelectedMutationError<I, E>,
    >)
        requires
            old(self).wf(),
            old(self).selection() is Some && outcome is Ok && outcome->Ok_0.1 ==> old(self).rows()[old(
                self,
            ).selection().unwrap() as int].revision_val() < u64::MAX,
        ensures
            final(self).wf(),
            old(self).selection() is None ==> r == Err::<(), SelectedMutationError<I, E>>(
                SelectedMutationError::NoDeviceSelected,
            ),
            old(self).selection() is Some ==> (match outcome {
                Err(e) => r == Err::<(), SelectedMutationError<I, E>>(SelectedMutationError::Input(e)),
                Ok(_) => r is Ok,
            }),
            r is Err ==> *final(self) == *old(self),
            r is Ok ==> {
                let idx = old(self).selection().unwrap() as int;
                &&& final(self).rows().len() == old(self).rows().len()
                &&& forall|i: int|
                    0 <= i < old(self).rows().len() && i != idx ==> #[trigger] final(self).rows()[i]
                        == old(self).rows()[i]
                &&& final(self).rows()[idx].science_spec().device_spec() == outcome->Ok_0.0
                &&& final(self).rows()[idx].revision_val() == old(self).rows()[idx].revision_val()
                    + if outcome->Ok_0.1 {
                    1int
                } else {
                    0int
                }
                &&& final(self).rows()[idx].id_val() == old(self).rows()[idx].id_val()
                &&& final(self).rows()[idx].checked_val() == old(self).rows()[idx].checked_val()
                &&& final(self).selection() == old(self).selection()
                &&& final(self).outputs() == old(self).outputs()
                &&& final(self).dibls() == old(self).dibls()
                &&& final(self).next_id() == old(self).next_id()
            },
    {
        let idx = match self.selected {
            Some(idx) => idx,
            None => {
                return Err(SelectedMutationError::NoDeviceSelected);
            },
        };
        match outcome {
            Ok((device, changed)) => {
                self.commit_device_at(idx, device, changed);
                Ok(())
            },
            Err(e) => Err(SelectedMutationError::Input(e)),
        }
    }

    /// Commits an edited device value to the selected row.
    pub fn commit_selected_device<I, E>(&mut self, device: D, changed: bool) -> (r: Result<
        (),
        SelectedMutationError<I, E>,
    >)
        requires
            old(self).wf(),
            changed && old(self).selection() is Some ==> old(self).rows()[old(
                self,
            ).selection().unwrap() as int].revision_val() < u64::MAX,
        ensures
            final(self).wf(),
            r is Err <==> old(self).selection() is None,
            r is Err ==> r == Err::<(), SelectedMutationError<I, E>>(
                SelectedMutationError::NoDeviceSelected,
            ),
            r is Err ==> final(self).rows() == old(self).rows(),
            r is Ok ==> {
                let idx = old(self).selection().unwrap() as int;
                &&& final(self).rows().len() == old(self).rows().len()
                &&& forall|i: int|
                    0 <= i < old(self).rows().len() && i != idx ==> #[trigger] final(self).rows()[i]
                        == old(self).rows()[i]
                &&& final(self).rows()[idx].science_spec().device_spec() == device
                &&& final(self).rows()[idx].revision_val() == old(self).rows()[idx].revision_val()
                    + if changed {
                    1int
                } else {
                    0int
                }
                &&& final(self).rows()[idx].id_val() == old(self).rows()[idx].id_val()
            },
            final(self).selection() == old(self).selection(),
            final(self).outputs() == old(self).outputs(),
            final(self).dibls() == old(self).dibls(),
            final(self).next_id() == old(self).next_id(),
    {
        match self.selected {
            Some(idx) => {
                self.commit_device_at(idx, device, changed);
                Ok(())
            },
            None => Err(SelectedMutationError::NoDeviceSelected),
        }
    }
}

/// Removing rows moves the selection with its row: when the selected row
/// survives, the new selection names that same row.
pub proof fn law_selection_follows_surviving_row<X>(rows: Seq<X>, mask: Seq<bool>, sel: usize)
    requires
        mask.len() == rows.len(),
        sel < rows.len(),
        !mask[sel as int],
    ensures
        remapped_selection(Some(sel), mask) matches Some(k) && k < kept(rows, mask).len()
            && kept(rows, mask)[k as int] == rows[sel as int],
{
    lemma_kept(rows, mask);
    lemma_count_set_bounds(mask, sel as int);
    lemma_count_set_mono(mask, sel as int, sel + 1);
    lemma_count_set_mono(mask, sel + 1, rows.len() as int);
    assert(kept(rows, mask)[sel - count_set(mask, sel as int)] == rows[sel as int]);
}

/// Keeping the rows a mask leaves is filtering by the complement of the mask.
pub proof fn lemma_kept_is_filter<X>(s: Seq<X>, mask: Seq<bool>, keep: spec_fn(X) -> bool)
    requires
        s.len() <= mask.len(),
        forall|i: int| 0 <= i < s.len() ==> mask[i] == !keep(#[trigger] s[i]),
    ensures
        kept(s, mask) == s.filter(keep),
    decreases s.len(),
{
    reveal(Seq::filter);
    if s.len() > 0 {
        let t = s.drop_last();
        assert forall|i: int| 0 <= i < t.len() implies mask[i] == !keep(#[trigger] t[i]) by {
            assert(t[i] == s[i]);
        }
        lemma_kept_is_filter(t, mask, keep);
        assert(s == t.push(s.last()));
        t.lemma_filter_push(s.last(), keep);
    }
}

/// With a row checked, removing takes exactly the checked rows; the others
/// stay, in their order.
pub proof fn law_removal_takes_the_checked_rows<D>(rows: Seq<DeviceEntry<D>>, selection: Option<usize>)
    requires
        any_checked(rows),
    ensures
        kept(rows, removal_mask(rows, selection)) == rows.filter(|e: DeviceEntry<D>| !e.checked_val()),
{
    lemma_kept_is_filter(rows, removal_mask(rows, selection), |e: DeviceEntry<D>| !e.checked_val());
}

proof fn lemma_kept_unmasked<X>(s: Seq<X>, mask: Seq<bool>)
    requires
        s.len() <= mask.len(),
        forall|j: int| 0 <= j < s.len() ==> !#[trigger] mask[j],
    ensures
        kept(s, mask) == s,
    decreases s.len(),
{
    if s.len() > 0 {
        lemma_kept_unmasked(s.drop_last(), mask);
        assert(s.drop_last().push(s.last()) =~= s);
    }
}

proof fn lemma_kept_single<X>(s: Seq<X>, mask: Seq<bool>, i: int)
    requires
        s.len() <= mask.len(),
        0 <= i < s.len(),
        forall|j: int| 0 <= j < s.len() ==> #[trigger] mask[j] == (j == i),
    ensures
        kept(s, mask) == s.remove(i),
    decreases s.len(),
{
    let t = s.drop_last();
    if i == s.len() - 1 {
        lemma_kept_unmasked(t, mask);
        assert(s.remove(i) =~= t);
    } else {
        lemma_kept_single(t, mask, i);
        assert(s.remove(i) =~= t.remove(i).push(s.last()));
    }
}

/// With no row checked, removing takes the selected row alone; the others
/// stay, in their order.
pub proof fn law_removal_without_checks_takes_the_selected_row<D>(rows: Seq<DeviceEntry<D>>, i: usize)
    requires
        !any_checked(rows),
        i < rows.len() <= usize::MAX,
    ensures
        kept(rows, removal_mask(rows, Some(i))) == rows.remove(i as int),
{
    let mask = removal_mask(rows, Some(i));
    assert forall|j: int| 0 <= j < rows.len() implies #[trigger] mask[j] == (j == i) by {
        assert(mask[j] == (Some(i) == Some(j as usize)));
        assert((j as usize) as int == j);
    }
    lemma_kept_single(rows, mask, i as int);
}

/// Keeping the checked rows drops exactly the unchecked ones; the checked
/// rows stay, in their order.
pub proof fn law_keep_checked_keeps_exactly_the_checked_rows<D>(rows: Seq<DeviceEntry<D>>)
    ensures
        kept(rows, keep_mask(rows)) == rows.filter(|e: DeviceEntry<D>| e.checked_val()),
{
    lemma_kept_is_filter(rows, keep_mask(rows), |e: DeviceEntry<D>| e.checked_val());
}

/// Every row of `kept` comes from a distinct, increasing original row.
pub proof fn lemma_kept_order<X>(s: Seq<X>, mask: Seq<bool>, i: int, j: int)
    requires
        s.len() <= mask.len(),
        0 <= i < j < kept(s, mask).len(),
    ensures
        exists|a: int, b: int|
            0 <= a < b < s.len() && kept(s, mask)[i] == s[a] && kept(s, mask)[j] == s[b],
    decreases s.len(),
{
    let t = s.drop_last();
    lemma_kept(t, mask);
    lemma_kept(s, mask);
    if j < kept(t, mask).len() {
        lemma_kept_order(t, mask, i, j);
        let (a, b) = choose|a: int, b: int|
            0 <= a < b < t.len() && kept(t, mask)[i] == t[a] && kept(t, mask)[j] == t[b];
        assert(kept(s, mask)[i] == s[a] && kept(s, mask)[j] == s[b]);
    } else {
        let a = choose|a: int| 0 <= a < t.len() && !mask[a] && #[trigger] kept(t, mask)[i] == t[a];
        assert(kept(s, mask)[i] == s[a]);
        assert(kept(s, mask)[j] == s[s.len() - 1]);
    }
}

/// With no mask bit set, every row is kept.
pub proof fn lemma_kept_none<X>(s: Seq<X>, mask: Seq<bool>)
    requires
        s.len() <= mask.len(),
        count_set(mask, s.len() as int) == 0,
    ensures
        kept(s, mask) == s,
    decreases s.len(),
{
    if s.len() > 0 {
        lemma_count_set_mono(mask, s.len() - 1, s.len() as int);
        lemma_kept_none(s.drop_last(), mask);
        assert(s.drop_last().push(s.last()) =~= s);
    }
}

} // verus!
