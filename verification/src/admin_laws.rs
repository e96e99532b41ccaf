//! What saving and deleting do to the list of sources.

use vstd::prelude::*;
use vstd::utf8::encode_utf8;

use crate::admin::{credentials, first_source, with_source, without_source};
use crate::encoding::{base64_standard, lemma_base64_standard_injective};
use crate::model::SourceView;
use crate::runtime_laws::distinct_ids;
use crate::signing_laws::lemma_encode_injective;

verus! {

/// No header lets in the administrators of two different passwords.
pub proof fn law_credentials_differ(password: Seq<char>, other: Seq<char>)
    requires
        credentials(password) == credentials(other),
    ensures
        password == other,
{
    let one = encode_utf8("admin:"@ + password);
    let two = encode_utf8("admin:"@ + other);
    let n = "Basic "@.len() as int;
    assert(credentials(password).skip(n) =~= base64_standard(one));
    assert(credentials(other).skip(n) =~= base64_standard(two));
    lemma_base64_standard_injective(one, two);
    lemma_encode_injective("admin:"@ + password, "admin:"@ + other);
    let m = "admin:"@.len() as int;
    assert(("admin:"@ + password).skip(m) =~= password);
    assert(("admin:"@ + other).skip(m) =~= other);
}

/// The first source with an identifier is one that has it, and none before it
/// does.
pub proof fn lemma_first_source(sources: Seq<SourceView>, id: Seq<char>)
    ensures
        match first_source(sources, id) {
            Some(i) => {
                &&& 0 <= i < sources.len()
                &&& sources[i].id == id
                &&& forall|j: int| 0 <= j < i ==> (#[trigger] sources[j]).id != id
            },
            None => forall|j: int| 0 <= j < sources.len() ==> (#[trigger] sources[j]).id != id,
        },
    decreases sources.len(),
{
    if sources.len() > 0 {
        let front = sources.drop_last();
        lemma_first_source(front, id);
        match first_source(front, id) {
            Some(i) => {
                assert(front[i] == sources[i]);
                assert forall|j: int| 0 <= j < i implies (#[trigger] sources[j]).id != id by {
                    assert(front[j] == sources[j]);
                }
            },
            None => {
                assert forall|j: int| 0 <= j < front.len() implies (#[trigger] sources[j]).id
                    != id by {
                    assert(front[j] == sources[j]);
                }
            },
        }
    }
}

/// The first source is found by what it is.
proof fn lemma_first_source_at(sources: Seq<SourceView>, id: Seq<char>, i: int)
    requires
        0 <= i < sources.len(),
        sources[i].id == id,
        forall|j: int| 0 <= j < i ==> (#[trigger] sources[j]).id != id,
    ensures
        first_source(sources, id) == Some(i),
{
    lemma_first_source(sources, id);
    match first_source(sources, id) {
        Some(k) => {
            if k < i {
                assert(sources[k].id != id);
            }
        },
        None => {},
    }
}

/// A source that has been saved is in the list, with all that the form gives. An
/// edited source keeps its place and where the service reaches it, a new one
/// comes last, and the other sources stay as they are.
pub proof fn law_saved_source_is_listed(sources: Seq<SourceView>, source: SourceView)
    ensures
        ({
            let after = with_source(sources, source);
            let place = match first_source(sources, source.id) {
                Some(i) => i,
                None => sources.len() as int,
            };
            &&& first_source(after, source.id) == Some(place)
            &&& after[place].id == source.id
            &&& after[place].name == source.name
            &&& after[place].url == source.url
            &&& after[place].mode == source.mode
            &&& after[place].enabled == source.enabled
            &&& first_source(sources, source.id) is Some ==> after[place].upstream_base_url
                == sources[place].upstream_base_url
            &&& forall|j: int|
                0 <= j < sources.len() && j != place ==> #[trigger] after[j] == sources[j]
            &&& after.len() == if first_source(sources, source.id) is Some {
                sources.len()
            } else {
                sources.len() + 1
            }
        }),
{
    let after = with_source(sources, source);
    lemma_first_source(sources, source.id);
    match first_source(sources, source.id) {
        Some(i) => {
            assert forall|j: int| 0 <= j < i implies (#[trigger] after[j]).id != source.id by {
                assert(after[j] == sources[j]);
            }
            lemma_first_source_at(after, source.id, i);
        },
        None => {
            assert forall|j: int| 0 <= j < sources.len() implies (#[trigger] after[j]).id
                != source.id by {
                assert(after[j] == sources[j]);
            }
            lemma_first_source_at(after, source.id, sources.len() as int);
        },
    }
}

/// Saving the same source again changes nothing.
pub proof fn law_save_twice(sources: Seq<SourceView>, source: SourceView)
    ensures
        with_source(with_source(sources, source), source) == with_source(sources, source),
{
    law_saved_source_is_listed(sources, source);
    lemma_first_source(sources, source.id);
    assert(with_source(with_source(sources, source), source) =~= with_source(sources, source));
}

/// After deleting, the list holds exactly the sources with other identifiers, in
/// their order.
pub proof fn law_delete_keeps_the_others(sources: Seq<SourceView>, id: Seq<char>)
    ensures
        without_source(sources, id) == sources.filter(|source: SourceView| source.id != id),
        first_source(without_source(sources, id), id) is None,
    decreases sources.len(),
{
    reveal(Seq::filter);
    if sources.len() > 0 {
        let kept = without_source(sources.drop_last(), id);
        law_delete_keeps_the_others(sources.drop_last(), id);
        assert(kept.push(sources.last()).drop_last() =~= kept);
    }
}

/// A list without the identifier stays as it is when it is deleted.
pub proof fn law_delete_unknown(sources: Seq<SourceView>, id: Seq<char>)
    requires
        first_source(sources, id) is None,
    ensures
        without_source(sources, id) == sources,
    decreases sources.len(),
{
    if sources.len() > 0 {
        law_delete_unknown(sources.drop_last(), id);
        assert(sources.drop_last().push(sources.last()) =~= sources);
    }
}

/// Deleting twice is deleting once.
pub proof fn law_delete_twice(sources: Seq<SourceView>, id: Seq<char>)
    ensures
        without_source(without_source(sources, id), id) == without_source(sources, id),
{
    law_delete_keeps_the_others(sources, id);
    law_delete_unknown(without_source(sources, id), id);
}

/// Deleting a source that was just added gives the list back.
pub proof fn law_delete_undoes_add(sources: Seq<SourceView>, source: SourceView)
    requires
        first_source(sources, source.id) is None,
    ensures
        without_source(with_source(sources, source), source.id) == sources,
{
    assert(with_source(sources, source).drop_last() =~= sources);
    law_delete_unknown(sources, source.id);
}

/// Saving keeps identifiers distinct.
pub proof fn law_save_keeps_ids_distinct(sources: Seq<SourceView>, source: SourceView)
    requires
        distinct_ids(sources),
    ensures
        distinct_ids(with_source(sources, source)),
{
    let after = with_source(sources, source);
    law_saved_source_is_listed(sources, source);
    lemma_first_source(sources, source.id);
    let place = match first_source(sources, source.id) {
        Some(i) => i,
        None => sources.len() as int,
    };
    assert forall|i: int, j: int| 0 <= i < j < after.len() implies (#[trigger] after[i]).id != (
    #[trigger] after[j]).id by {
        if i != place {
            assert(after[i] == sources[i]);
        }
        if j != place {
            assert(after[j] == sources[j]);
        }
        if i < sources.len() && j < sources.len() {
            assert(sources[i].id != sources[j].id);
        }
    }
}

/// Where the sources that are left stood.
proof fn lemma_left_from(sources: Seq<SourceView>, id: Seq<char>, k: int) -> (p: int)
    requires
        0 <= k < without_source(sources, id).len(),
    ensures
        k <= p < sources.len(),
        sources[p] == without_source(sources, id)[k],
    decreases sources.len(),
{
    let front = sources.drop_last();
    let kept = without_source(front, id);
    if k < kept.len() {
        let p = lemma_left_from(front, id, k);
        assert(front[p] == sources[p]);
        p
    } else {
        lemma_left_len(front, id);
        sources.len() - 1
    }
}

proof fn lemma_left_len(sources: Seq<SourceView>, id: Seq<char>)
    ensures
        without_source(sources, id).len() <= sources.len(),
    decreases sources.len(),
{
    if sources.len() > 0 {
        lemma_left_len(sources.drop_last(), id);
    }
}

/// Deleting keeps identifiers distinct.
pub proof fn law_delete_keeps_ids_distinct(sources: Seq<SourceView>, id: Seq<char>)
    requires
        distinct_ids(sources),
    ensures
        distinct_ids(without_source(sources, id)),
    decreases sources.len(),
{
    if sources.len() > 0 {
        let front = sources.drop_last();
        assert forall|a: int, b: int| 0 <= a < b < front.len() implies (#[trigger] front[a]).id
            != (#[trigger] front[b]).id by {
            assert(front[a] == sources[a]);
            assert(front[b] == sources[b]);
        }
        law_delete_keeps_ids_distinct(front, id);
        if sources.last().id != id {
            let kept = without_source(front, id);
            let after = without_source(sources, id);
            assert(after == kept.push(sources.last()));
            assert forall|a: int, b: int| 0 <= a < b < after.len() implies (#[trigger] after[a]).id
                != (#[trigger] after[b]).id by {
                assert(after[a] == kept[a]);
                if b < kept.len() {
                    assert(after[b] == kept[b]);
                } else {
                    let p = lemma_left_from(front, id, a);
                    assert(front[p] == sources[p]);
                    assert(sources[p].id != sources[sources.len() - 1].id);
                }
            }
        }
    }
}

} // verus!
