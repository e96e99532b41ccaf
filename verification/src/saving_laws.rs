//! What a form that is sent does to the sources, told from the form alone.

use vstd::prelude::*;
use vstd::utf8::encode_utf8;

use crate::admin::{
    credentials, first_source, form_source, with_source, without_source, SourceForm,
};
use crate::admin_laws::lemma_first_source;
use crate::encoding::base64_standard;
use crate::model::SourceView;
use crate::signing::identifier;
use crate::text::{decimal, trimmed};

verus! {

/// The administrator is let in by the Basic scheme with the user `admin` and the
/// password, both in base64.
pub proof fn law_credentials(password: Seq<char>)
    ensures
        credentials(password) == "Basic "@ + base64_standard(encode_utf8("admin:"@ + password)),
{
}

/// A form that names an identifier is saved under exactly this one, however long
/// it is and whatever it holds. The saved source has the name and the address of
/// the form without the white space around them, and its other fields.
pub proof fn law_form_saved(form: SourceForm, nonce: nat)
    ensures
        form.id matches Some(known) && known@.len() > 0 ==> form_source(form, nonce).id
            == form.id->0@,
        !(form.id matches Some(known) && known@.len() > 0) ==> form_source(form, nonce).id
            == identifier(
            trimmed(form.name@) + ":"@ + trimmed(form.url@) + ":"@ + decimal(nonce),
        ),
        form_source(form, nonce).name == trimmed(form.name@),
        form_source(form, nonce).url == trimmed(form.url@),
        form_source(form, nonce).mode == form.mode,
        form_source(form, nonce).enabled == form.enabled,
        form_source(form, nonce).upstream_base_url is None,
{
}

/// The first source with an identifier.
pub open spec fn first_with(sources: Seq<SourceView>, id: Seq<char>, i: int) -> bool {
    &&& 0 <= i < sources.len()
    &&& sources[i].id == id
    &&& forall|j: int| 0 <= j < i ==> (#[trigger] sources[j]).id != id
}

/// Editing a source that is known changes it in its place: the number of sources
/// stays, the source has what the form says and keeps its identifier and where the
/// service reaches it, and every other source stays.
pub proof fn law_edit_in_place(sources: Seq<SourceView>, form: SourceForm, nonce: nat, i: int)
    requires
        form.id matches Some(known) && known@.len() > 0 && first_with(sources, known@, i),
    ensures
        ({
            let after = with_source(sources, form_source(form, nonce));
            &&& after.len() == sources.len()
            &&& after[i].id == sources[i].id
            &&& after[i].name == trimmed(form.name@)
            &&& after[i].url == trimmed(form.url@)
            &&& after[i].mode == form.mode
            &&& after[i].enabled == form.enabled
            &&& after[i].upstream_base_url == sources[i].upstream_base_url
            &&& forall|j: int|
                0 <= j < sources.len() && j != i ==> #[trigger] after[j] == sources[j]
        }),
{
    let id = form.id->0@;
    law_form_saved(form, nonce);
    lemma_first_with(sources, id, i);
}

proof fn lemma_first_with(sources: Seq<SourceView>, id: Seq<char>, i: int)
    requires
        first_with(sources, id, i),
    ensures
        first_source(sources, id) == Some(i),
{
    lemma_first_source(sources, id);
    match first_source(sources, id) {
        Some(k) => {
            if k < i {
                assert(sources[k].id != id);
            }
        },
        None => {},
    }
}

/// Putting a source in replaces the first source with its identifier, which keeps
/// where the service reaches it, and adds the source at the end if there is none.
pub proof fn law_source_put(sources: Seq<SourceView>, source: SourceView)
    ensures
        forall|i: int| #[trigger]
            first_with(sources, source.id, i) ==> with_source(sources, source) == sources.update(
                i,
                SourceView {
                    id: source.id,
                    name: source.name,
                    url: source.url,
                    mode: source.mode,
                    enabled: source.enabled,
                    upstream_base_url: sources[i].upstream_base_url,
                },
            ),
        (forall|j: int| 0 <= j < sources.len() ==> (#[trigger] sources[j]).id != source.id)
            ==> with_source(sources, source) == sources.push(source),
{
    lemma_first_source(sources, source.id);
    assert forall|i: int| #[trigger] first_with(sources, source.id, i) implies first_source(
        sources,
        source.id,
    ) == Some(i) by {
        lemma_first_with(sources, source.id, i);
    }
}

/// A form under an identifier that no source has adds a source at the end, and
/// every source stays.
pub proof fn law_add_at_end(sources: Seq<SourceView>, form: SourceForm, nonce: nat)
    requires
        forall|j: int|
            0 <= j < sources.len() ==> (#[trigger] sources[j]).id != form_source(form, nonce).id,
    ensures
        ({
            let after = with_source(sources, form_source(form, nonce));
            let n = sources.len() as int;
            &&& after.len() == n + 1
            &&& forall|j: int| 0 <= j < n ==> #[trigger] after[j] == sources[j]
            &&& after[n].id == form_source(form, nonce).id
            &&& after[n].name == trimmed(form.name@)
            &&& after[n].url == trimmed(form.url@)
            &&& after[n].mode == form.mode
            &&& after[n].enabled == form.enabled
            &&& after[n].upstream_base_url is None
        }),
{
    lemma_first_source(sources, form_source(form, nonce).id);
}

/// Deleting goes source by source: those with the identifier go, whatever else
/// they hold, and the others stay.
pub proof fn law_delete_in_parts(
    one: Seq<SourceView>,
    two: Seq<SourceView>,
    source: SourceView,
    id: Seq<char>,
)
    ensures
        without_source(one + two, id) == without_source(one, id) + without_source(two, id),
        without_source(seq![source], id) == if source.id == id {
            seq![]
        } else {
            seq![source]
        },
        without_source(seq![], id) == Seq::<SourceView>::empty(),
    decreases two.len(),
{
    assert(seq![source].drop_last() =~= seq![]);
    assert(without_source(seq![source].drop_last(), id) =~= seq![]);
    assert(Seq::<SourceView>::empty().push(source) =~= seq![source]);
    if two.len() == 0 {
        assert(one + two =~= one);
        assert(without_source(one, id) + without_source(two, id) =~= without_source(one, id));
    } else {
        law_delete_in_parts(one, two.drop_last(), source, id);
        assert((one + two).drop_last() =~= one + two.drop_last());
        assert((one + two).last() == two.last());
        assert(without_source(one + two, id) =~= without_source(one, id) + without_source(two, id));
    }
}

} // verus!
