//! Custom chip definitions, added to the registry of the `probe-rs` crate.

use crate::text;
use probe_rs::config::Registry;
use vstd::prelude::*;

verus! {

/// The chip families that `probe-rs` knows: `probe_rs::config::Registry`.
#[verifier::external_type_specification]
#[verifier::external_body]
pub struct ExRegistry(probe_rs::config::Registry);

/// A chip family: its name, the names of its chips in order, and the image formats that its chips
/// name as their default, in order.
pub struct FamilyView {
    pub name: Seq<char>,
    pub variants: Seq<Seq<char>>,
    pub formats: Seq<Seq<char>>,
}

/// The families in a registry, in order.
pub uninterp spec fn families_of(registry: Registry) -> Seq<FamilyView>;

/// The chip family that a YAML document describes, or the text of the error if the document cannot
/// be read as one or `ChipFamily::validate` finds the family invalid.
pub uninterp spec fn family_in(yaml: Seq<char>) -> Result<FamilyView, Seq<char>>;

/// The families whose names are not `name` up to the case of ASCII letters, in order.
pub open spec fn other_families(families: Seq<FamilyView>, name: Seq<char>) -> Seq<FamilyView> {
    families.filter(|family: FamilyView| text::lower(family.name) != text::lower(name))
}

/// The families once one was added: it takes the place of those whose names differ from its own
/// at most in the case of ASCII letters.
pub open spec fn with_family(families: Seq<FamilyView>, family: FamilyView) -> Seq<FamilyView> {
    other_families(families, family.name).push(family)
}

/// The image formats that are known in every process.
pub open spec fn is_built_in(format: Seq<char>) -> bool {
    format == "elf"@ || format == "bin"@ || format == "binary"@ || format == "hex"@ || format
        == "ihex"@ || format == "intelhex"@ || format == "uf2"@
}

/// Every image format that the family's chips name is known in every process.
pub open spec fn names_built_in(family: FamilyView) -> bool {
    forall|i: int| 0 <= i < family.formats.len() ==> is_built_in(#[trigger] family.formats[i])
}

/// The text says why the document is not accepted: it describes no valid family, or a chip of the
/// family names an image format that need not be known.
pub open spec fn explains_refusal(message: Seq<char>, yaml: Seq<char>) -> bool {
    match family_in(yaml) {
        Err(expected) => message == expected,
        Ok(family) => exists|i: int|
            0 <= i < family.formats.len() && !is_built_in(#[trigger] family.formats[i]) && message
                == "Invalid chip family definition ("@ + family.name
                + "): Unknown image format "@ + family.formats[i],
    }
}

/// `probe_rs::config::Registry::add_target_family_from_yaml`: an accepted document describes a
/// valid family, which is added in place of families with the same name up to the case of ASCII
/// letters; its name is given back. A document that is not accepted changes nothing, and the text
/// of the error gives the reason: the document describes no valid family, or a chip of the family
/// names an image format that the process does not know. The built-in formats are known in every
/// process. Which others are is not stated: that depends on what the process has registered.
#[verifier::external_body]
fn add_family(registry: &mut Registry, yaml: &str) -> (r: Result<String, String>)
    ensures
        match r {
            Ok(name) => family_in(yaml@) matches Ok(family) && family.name == name@ && families_of(
                *final(registry),
            ) == with_family(families_of(*old(registry)), family),
            Err(message) => *final(registry) == *old(registry) && explains_refusal(
                message@,
                yaml@,
            ),
        },
{
    registry.add_target_family_from_yaml(yaml).map_err(|e| e.to_string())
}

/// Files with that extension hold chip definitions.
pub open spec fn is_chip_extension(extension: Option<Seq<char>>) -> bool {
    extension is Some && extension->0 == "yaml"@
}

/// Whether a file with that extension holds a chip definition.
pub fn is_chip_file(extension: Option<&str>) -> (r: bool)
    ensures
        r == (extension matches Some(text) && text@ == "yaml"@),
        r == is_chip_extension(
            match extension {
                Some(text) => Some(text@),
                None => None,
            },
        ),
{
    match extension {
        Some(extension) => text::same_text(extension, "yaml"),
        None => false,
    }
}

/// What was found where custom chip definitions are kept.
pub enum ChipDirectory {
    /// There is no such directory.
    Missing,
    /// The directory cannot be listed, for this reason.
    Unreadable(String),
    /// What reading each chip file gave: its text, or the text of the error.
    Documents(Vec<Result<String, String>>),
}

/// What became of a chip file.
#[derive(Debug)]
pub enum DocumentOutcome {
    /// The family with that name was added.
    Loaded(String),
    /// The text was not accepted, for this reason.
    Rejected(String),
    /// The file could not be read, for this reason.
    Unreadable(String),
}

/// What became of the chip files, in order.
#[derive(Debug)]
pub struct LoadReport {
    /// How many families were added.
    pub loaded_families: usize,
    pub outcomes: Vec<DocumentOutcome>,
}

/// The outcome fits the chip file: a file that could not be read is reported with the reason; one
/// that was read is either reported as the family that it describes, or as not accepted, with a
/// reason that its text gives.
pub open spec fn outcome_fits(outcome: DocumentOutcome, document: Result<String, String>) -> bool {
    match document {
        Err(message) => outcome matches DocumentOutcome::Unreadable(text) && text@ == message@,
        Ok(yaml) => match outcome {
            DocumentOutcome::Loaded(name) => family_in(yaml@) matches Ok(family) && family.name
                == name@,
            DocumentOutcome::Rejected(message) => explains_refusal(message@, yaml@),
            DocumentOutcome::Unreadable(_) => false,
        },
    }
}

/// The outcomes fit the chip files, one for one.
pub open spec fn outcomes_fit(
    outcomes: Seq<DocumentOutcome>,
    documents: Seq<Result<String, String>>,
) -> bool {
    outcomes.len() == documents.len() && forall|i: int|
        0 <= i < documents.len() ==> outcome_fits(#[trigger] outcomes[i], documents[i])
}

/// The families once the chip files were gone through in order: those that the loaded ones
/// describe were added.
pub open spec fn with_documents(
    families: Seq<FamilyView>,
    documents: Seq<Result<String, String>>,
    outcomes: Seq<DocumentOutcome>,
) -> Seq<FamilyView>
    decreases outcomes.len(),
{
    if outcomes.len() == 0 {
        families
    } else {
        let before = with_documents(families, documents.drop_last(), outcomes.drop_last());
        match (outcomes.last(), documents.last()) {
            (DocumentOutcome::Loaded(_), Ok(yaml)) => with_family(before, family_in(yaml@)->Ok_0),
            _ => before,
        }
    }
}

/// How many of the chip files were loaded.
pub open spec fn count_loaded(outcomes: Seq<DocumentOutcome>) -> nat
    decreases outcomes.len(),
{
    if outcomes.len() == 0 {
        0
    } else {
        count_loaded(outcomes.drop_last()) + if outcomes.last() is Loaded {
            1nat
        } else {
            0nat
        }
    }
}

/// What became of a chip file that was read, given what adding its family gave.
pub fn outcome_of(added: Result<String, String>) -> (outcome: DocumentOutcome)
    ensures
        match added {
            Ok(name) => outcome == DocumentOutcome::Loaded(name),
            Err(message) => outcome == DocumentOutcome::Rejected(message),
        },
{
    match added {
        Ok(name) => DocumentOutcome::Loaded(name),
        Err(message) => DocumentOutcome::Rejected(message),
    }
}

/// Adds the families that the chip files define, in order. A file that cannot be read, or whose
/// text is not accepted, is passed over.
pub fn load_families(registry: &mut Registry, documents: &Vec<Result<String, String>>) -> (report:
    LoadReport)
    ensures
        outcomes_fit(report.outcomes@, documents@),
        report.loaded_families == count_loaded(report.outcomes@),
        families_of(*final(registry)) == with_documents(
            families_of(*old(registry)),
            documents@,
            report.outcomes@,
        ),
        count_loaded(report.outcomes@) == 0 ==> *final(registry) == *old(registry),
{
    let ghost start = families_of(*registry);
    let mut loaded_families: usize = 0;
    let mut outcomes: Vec<DocumentOutcome> = Vec::new();
    let mut i: usize = 0;
    assert(documents@.take(0) == Seq::<Result<String, String>>::empty());
    while i < documents.len()
        invariant
            i <= documents@.len(),
            loaded_families <= i,
            start == families_of(*old(registry)),
            outcomes_fit(outcomes@, documents@.take(i as int)),
            loaded_families == count_loaded(outcomes@),
            families_of(*registry) == with_documents(
                start,
                documents@.take(i as int),
                outcomes@,
            ),
            count_loaded(outcomes@) == 0 ==> *registry == *old(registry),
        decreases documents@.len() - i,
    {
        let ghost before = outcomes@;
        let ghost read = documents@.take(i + 1);
        assert(read.drop_last() == documents@.take(i as int));
        let outcome = match &documents[i] {
            Ok(yaml) => outcome_of(add_family(registry, yaml.as_str())),
            Err(message) => DocumentOutcome::Unreadable(message.clone()),
        };
        if let DocumentOutcome::Loaded(_) = &outcome {
            loaded_families = loaded_families + 1;
        }
        outcomes.push(outcome);
        proof {
            assert(outcomes@.drop_last() == before);
            assert forall|k: int| 0 <= k < read.len() implies outcome_fits(
                #[trigger] outcomes@[k],
                read[k],
            ) by {
                if k < i {
                    assert(outcomes@[k] == before[k]);
                    assert(read[k] == documents@.take(i as int)[k]);
                }
            }
        }
        i = i + 1;
    }
    assert(documents@.take(i as int) == documents@);
    LoadReport { loaded_families, outcomes }
}

/// Adds the custom chip definitions to the registry. Without a directory there is nothing to
/// add; a directory that cannot be listed is an error.
pub fn init_custom_registry(registry: &mut Registry, directory: ChipDirectory) -> (r: Result<
    LoadReport,
    String,
>)
    ensures
        match directory {
            ChipDirectory::Missing => *final(registry) == *old(registry) && (r matches Ok(report)
                && report.loaded_families == 0 && report.outcomes@.len() == 0),
            ChipDirectory::Unreadable(message) => *final(registry) == *old(registry) && (
            r matches Err(text) && text@ == "Failed to read chip directory: "@ + message@),
            ChipDirectory::Documents(documents) => r matches Ok(report) && {
                &&& outcomes_fit(report.outcomes@, documents@)
                &&& report.loaded_families == count_loaded(report.outcomes@)
                &&& families_of(*final(registry)) == with_documents(
                    families_of(*old(registry)),
                    documents@,
                    report.outcomes@,
                )
                &&& count_loaded(report.outcomes@) == 0 ==> *final(registry) == *old(registry)
            },
        },
{
    match directory {
        ChipDirectory::Missing => Ok(LoadReport { loaded_families: 0, outcomes: Vec::new() }),
        ChipDirectory::Unreadable(message) => {
            let mut text = "Failed to read chip directory: ".to_owned();
            text.append(message.as_str());
            Err(text)
        },
        ChipDirectory::Documents(documents) => Ok(load_families(registry, &documents)),
    }
}

// -----------------------------------------------------------------------------------------
// Laws
// -----------------------------------------------------------------------------------------

/// No two names are the same up to the case of ASCII letters.
pub open spec fn distinct_families(families: Seq<FamilyView>) -> bool {
    forall|i: int, j: int|
        0 <= i < j < families.len() ==> text::lower((#[trigger] families[i]).name) != text::lower(
            (#[trigger] families[j]).name,
        )
}

proof fn lemma_others(families: Seq<FamilyView>, name: Seq<char>)
    requires
        distinct_families(families),
    ensures
        distinct_families(other_families(families, name)),
        forall|i: int|
            0 <= i < other_families(families, name).len() ==> families.contains(
                #[trigger] other_families(families, name)[i],
            ),
    decreases families.len(),
{
    reveal(Seq::filter);
    if families.len() > 0 {
        let rest = families.drop_last();
        let kept = other_families(rest, name);
        assert forall|i: int, j: int| 0 <= i < j < rest.len() implies text::lower(
            (#[trigger] rest[i]).name,
        ) != text::lower((#[trigger] rest[j]).name) by {
            assert(text::lower(families[i].name) != text::lower(families[j].name));
        }
        lemma_others(rest, name);
        let all = other_families(families, name);
        assert forall|i: int| 0 <= i < all.len() implies families.contains(#[trigger] all[i]) by {
            if i < kept.len() {
                assert(all[i] == kept[i]);
                let k = choose|k: int| 0 <= k < rest.len() && rest[k] == kept[i];
                assert(families[k] == all[i]);
            } else {
                assert(families[families.len() - 1] == all[i]);
            }
        }
        assert forall|i: int, j: int| 0 <= i < j < all.len() implies text::lower(
            (#[trigger] all[i]).name,
        ) != text::lower((#[trigger] all[j]).name) by {
            assert(all[i] == kept[i]);
            if j < kept.len() {
                assert(all[j] == kept[j]);
            } else {
                assert(rest.contains(kept[i]));
                let k = choose|k: int| 0 <= k < rest.len() && rest[k] == kept[i];
                assert(families[k] == all[i]);
                assert(text::lower(families[k].name) != text::lower(
                    families[families.len() - 1].name,
                ));
            }
        }
    }
}

/// A family that was added is in the registry, last, and it is the only one with its name up to
/// the case of ASCII letters: a later definition takes the place of an earlier one, and a custom
/// definition that of a built-in one.
pub proof fn lemma_family_added(families: Seq<FamilyView>, family: FamilyView)
    ensures
        with_family(families, family).len() > 0,
        with_family(families, family).last() == family,
        forall|i: int|
            0 <= i < with_family(families, family).len() - 1 ==> text::lower(
                (#[trigger] with_family(families, family)[i]).name,
            ) != text::lower(family.name),
{
    let picked = |other: FamilyView| text::lower(other.name) != text::lower(family.name);
    let kept = families.filter(picked);
    assert forall|i: int| 0 <= i < with_family(families, family).len() - 1 implies text::lower(
        (#[trigger] with_family(families, family)[i]).name,
    ) != text::lower(family.name) by {
        families.lemma_filter_pred(picked, i);
        assert(with_family(families, family)[i] == kept[i]);
    }
}

/// A registry whose names differ up to the case of ASCII letters stays so, whatever chip files
/// are loaded.
pub proof fn lemma_distinct_families(
    families: Seq<FamilyView>,
    documents: Seq<Result<String, String>>,
    outcomes: Seq<DocumentOutcome>,
)
    requires
        distinct_families(families),
    ensures
        distinct_families(with_documents(families, documents, outcomes)),
    decreases outcomes.len(),
{
    if outcomes.len() > 0 {
        lemma_distinct_families(families, documents.drop_last(), outcomes.drop_last());
        let before = with_documents(families, documents.drop_last(), outcomes.drop_last());
        if let (DocumentOutcome::Loaded(_), Ok(yaml)) = (outcomes.last(), documents.last()) {
            let family = family_in(yaml@)->Ok_0;
            lemma_others(before, family.name);
            lemma_family_added(before, family);
            let kept = other_families(before, family.name);
            let all = with_family(before, family);
            assert forall|i: int, j: int| 0 <= i < j < all.len() implies text::lower(
                (#[trigger] all[i]).name,
            ) != text::lower((#[trigger] all[j]).name) by {
                assert(all[i] == kept[i]);
                if j < kept.len() {
                    assert(all[j] == kept[j]);
                }
            }
        }
    }
}

/// Every chip file that can be read and describes a valid family is loaded, unless a chip of the
/// family names an image format that is not built in. What the other chip files hold is no matter.
pub proof fn lemma_valid_families_load(
    documents: Seq<Result<String, String>>,
    outcomes: Seq<DocumentOutcome>,
    i: int,
)
    requires
        outcomes_fit(outcomes, documents),
        0 <= i < documents.len(),
        documents[i] is Ok,
        family_in(documents[i]->Ok_0@) is Ok,
        names_built_in(family_in(documents[i]->Ok_0@)->Ok_0),
    ensures
        outcomes[i] matches DocumentOutcome::Loaded(name) && name@ == family_in(
            documents[i]->Ok_0@,
        )->Ok_0.name,
{
    assert(outcome_fits(outcomes[i], documents[i]));
}

/// No chip file is loaded that does not describe a valid family.
pub proof fn lemma_other_documents_are_passed_over(
    documents: Seq<Result<String, String>>,
    outcomes: Seq<DocumentOutcome>,
    i: int,
)
    requires
        outcomes_fit(outcomes, documents),
        0 <= i < documents.len(),
        documents[i] matches Ok(yaml) ==> family_in(yaml@) is Err,
    ensures
        outcomes[i] !is Loaded,
{
    assert(outcome_fits(outcomes[i], documents[i]));
}

/// Some family has that name up to the case of ASCII letters.
pub open spec fn has_family(families: Seq<FamilyView>, name: Seq<char>) -> bool {
    exists|i: int|
        0 <= i < families.len() && text::lower((#[trigger] families[i]).name) == text::lower(name)
}

proof fn lemma_name_stays(families: Seq<FamilyView>, family: FamilyView, name: Seq<char>)
    requires
        has_family(families, name),
    ensures
        has_family(with_family(families, family), name),
{
    let all = with_family(families, family);
    let i = choose|i: int|
        0 <= i < families.len() && text::lower((#[trigger] families[i]).name) == text::lower(name);
    if text::lower(families[i].name) == text::lower(family.name) {
        assert(text::lower(all[all.len() - 1].name) == text::lower(name));
    } else {
        let picked = |other: FamilyView| text::lower(other.name) != text::lower(family.name);
        let kept = families.filter(picked);
        families.lemma_filter_contains(picked, i);
        let k = choose|k: int| 0 <= k < kept.len() && kept[k] == families[i];
        assert(all[k] == kept[k]);
    }
}

/// Loading chip files takes no name out of the registry.
pub proof fn lemma_names_stay(
    families: Seq<FamilyView>,
    documents: Seq<Result<String, String>>,
    outcomes: Seq<DocumentOutcome>,
    name: Seq<char>,
)
    requires
        has_family(families, name),
    ensures
        has_family(with_documents(families, documents, outcomes), name),
    decreases outcomes.len(),
{
    if outcomes.len() > 0 {
        lemma_names_stay(families, documents.drop_last(), outcomes.drop_last(), name);
        let before = with_documents(families, documents.drop_last(), outcomes.drop_last());
        if let (DocumentOutcome::Loaded(_), Ok(yaml)) = (outcomes.last(), documents.last()) {
            lemma_name_stays(before, family_in(yaml@)->Ok_0, name);
        }
    }
}

/// Once all chip files were gone through, the registry has a family under the name of each one
/// that was loaded.
pub proof fn lemma_loaded_families_are_known(
    families: Seq<FamilyView>,
    documents: Seq<Result<String, String>>,
    outcomes: Seq<DocumentOutcome>,
    i: int,
)
    requires
        outcomes_fit(outcomes, documents),
        0 <= i < documents.len(),
        outcomes[i] is Loaded,
    ensures
        has_family(with_documents(families, documents, outcomes), outcomes[i]->Loaded_0@),
    decreases outcomes.len(),
{
    let before = with_documents(families, documents.drop_last(), outcomes.drop_last());
    let name = outcomes[i]->Loaded_0@;
    assert(outcome_fits(outcomes[i], documents[i]));
    if i == outcomes.len() - 1 {
        let all = with_family(before, family_in(documents[i]->Ok_0@)->Ok_0);
        assert(text::lower(all[all.len() - 1].name) == text::lower(name));
    } else {
        let shorter = documents.drop_last();
        assert forall|k: int| 0 <= k < shorter.len() implies outcome_fits(
            #[trigger] outcomes.drop_last()[k],
            shorter[k],
        ) by {
            assert(outcome_fits(outcomes[k], documents[k]));
        }
        lemma_loaded_families_are_known(families, shorter, outcomes.drop_last(), i);
        if let (DocumentOutcome::Loaded(_), Ok(yaml)) = (outcomes.last(), documents.last()) {
            lemma_name_stays(before, family_in(yaml@)->Ok_0, name);
        }
    }
}

/// As many families are reported loaded as there are loaded chip files.
pub proof fn lemma_count_loaded(outcomes: Seq<DocumentOutcome>)
    ensures
        count_loaded(outcomes) == outcomes.filter(|outcome: DocumentOutcome| outcome is Loaded).len(),
    decreases outcomes.len(),
{
    reveal(Seq::filter);
    if outcomes.len() > 0 {
        lemma_count_loaded(outcomes.drop_last());
    }
}

/// A chip file that cannot be read is reported so, with the reason; one that can be read is never
/// reported so, and is reported as loaded only under the name of the family that it describes.
pub proof fn lemma_reports(
    documents: Seq<Result<String, String>>,
    outcomes: Seq<DocumentOutcome>,
    i: int,
)
    requires
        outcomes_fit(outcomes, documents),
        0 <= i < documents.len(),
    ensures
        outcomes.len() == documents.len(),
        documents[i] is Err ==> outcomes[i] is Unreadable && outcomes[i]->Unreadable_0@
            == documents[i]->Err_0@,
        documents[i] is Ok ==> !(outcomes[i] is Unreadable),
        outcomes[i] is Loaded ==> documents[i] is Ok && family_in(documents[i]->Ok_0@) is Ok
            && family_in(documents[i]->Ok_0@)->Ok_0.name == outcomes[i]->Loaded_0@,
{
    assert(outcome_fits(outcomes[i], documents[i]));
}

/// One more chip file changes the registry only if it is loaded; then its family is put last, in
/// place of the families of the same name up to the case of ASCII letters, and all others stay as
/// they are, in order.
pub proof fn lemma_one_more_document(
    families: Seq<FamilyView>,
    documents: Seq<Result<String, String>>,
    outcomes: Seq<DocumentOutcome>,
    yaml: String,
    outcome: DocumentOutcome,
)
    ensures
        with_documents(families, Seq::empty(), Seq::empty()) == families,
        ({
            let before = with_documents(families, documents, outcomes);
            let after = with_documents(families, documents.push(Ok(yaml)), outcomes.push(outcome));
            let family = family_in(yaml@)->Ok_0;
            &&& !(outcome is Loaded) ==> after == before
            &&& outcome is Loaded ==> after.len() > 0 && after.last() == family
                && after.drop_last() == before.filter(
                |other: FamilyView| text::lower(other.name) != text::lower(family.name),
            )
        }),
{
    assert(documents.push(Ok(yaml)).drop_last() == documents);
    assert(outcomes.push(outcome).drop_last() == outcomes);
    let before = with_documents(families, documents, outcomes);
    let family = family_in(yaml@)->Ok_0;
    assert(with_family(before, family).drop_last() == other_families(before, family.name));
}

/// A chip file that cannot be read changes nothing in the registry.
pub proof fn lemma_one_more_unreadable_document(
    families: Seq<FamilyView>,
    documents: Seq<Result<String, String>>,
    outcomes: Seq<DocumentOutcome>,
    message: String,
    outcome: DocumentOutcome,
)
    ensures
        with_documents(families, documents.push(Err(message)), outcomes.push(outcome))
            == with_documents(families, documents, outcomes),
{
    assert(documents.push(Err(message)).drop_last() == documents);
    assert(outcomes.push(outcome).drop_last() == outcomes);
}

/// Chip definitions are kept in files with the extension `yaml`, in lower case, and in no others.
pub proof fn lemma_chip_extension(text: Seq<char>)
    ensures
        is_chip_extension(Some("yaml"@)),
        is_chip_extension(Some(text)) ==> text == "yaml"@,
        !is_chip_extension(None),
{
}

} // verus!
