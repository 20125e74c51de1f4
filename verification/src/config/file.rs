//! A configuration file held in memory.
use vstd::prelude::*;
use vstd::string::StringSliceAdditionalSpecFns;
use crate::config::events::{lemma_written_push, write_events, written, Event, ParsedSectionHeader};
use crate::config::events::EventKind;
use crate::config::grammar::{model_of, models, parsed, EventModel};
use crate::config::parser::{parse_from_bytes, ParseError};
use crate::config::lookup::{
    add_to_tree, after_adding, after_removing, beside_added, copy_slice, found_ids,
    ids_in, ids_named, lemma_found_all, lemma_named_all, lemma_purged_all, lemma_purged_lookup,
    lemma_without_members, lookup, lookup_named, purge_tree, remove_id, sub_view, tree_all,
    tree_model, tree_with, without, LookupEntry, LookupError, LookupTreeNode, NodeModel, SectionId,
};
use crate::config::section::{keys_before, same_name, value_of, values_from, SectionBody};

verus! {

/// A configuration file: what stands before its first section, and its sections, each
/// with a header and a body, known by ids and found by their names.
#[derive(Debug)]
pub struct File {
    /// The events before the first section.
    pub frontmatter_events: SectionBody,
    /// The ids of the sections, by section name and subsection name.
    pub section_lookup_tree: Vec<LookupEntry>,
    /// The bodies of the sections, by id; nothing for a section that was removed.
    pub sections: Vec<Option<SectionBody>>,
    /// The headers of the sections, by id; nothing for a section that was removed.
    pub section_headers: Vec<Option<ParsedSectionHeader>>,
    /// The id that the next section gets.
    pub section_id_counter: usize,
    /// The ids of the sections in the order in which they stand in the file.
    pub section_order: Vec<SectionId>,
}

/// Whether `id` names a section among `sections`.
pub open spec fn live_in(sections: Seq<Option<SectionBody>>) -> spec_fn(SectionId) -> bool {
    |id: SectionId| id.0 < sections.len() && sections[id.0 as int] is Some
}

/// Ids that meet a condition meet every weaker one.
pub proof fn lemma_tree_all_weaken(
    tree: Seq<LookupEntry>,
    strong: spec_fn(SectionId) -> bool,
    weak: spec_fn(SectionId) -> bool,
)
    requires
        tree_all(tree, strong),
        forall|id: SectionId| #[trigger] strong(id) ==> weak(id),
    ensures
        tree_all(tree, weak),
{
    assert forall|e: int| 0 <= e < tree.len() implies crate::config::lookup::nodes_all(
        (#[trigger] tree[e]).nodes@,
        weak,
    ) by {
        let nodes = tree[e].nodes@;
        assert(crate::config::lookup::nodes_all(nodes, strong));
        assert forall|n: int| 0 <= n < nodes.len() implies match #[trigger] nodes[n] {
            LookupTreeNode::Terminal(ids) => forall|i: int|
                0 <= i < ids@.len() ==> weak(#[trigger] ids@[i]),
            LookupTreeNode::NonTerminal(subs) => crate::config::lookup::subsections_all(
                subs@,
                weak,
            ),
        } by {
            match nodes[n] {
                LookupTreeNode::Terminal(ids) => {
                    assert forall|i: int| 0 <= i < ids@.len() implies weak(#[trigger] ids@[i]) by {
                        assert(strong(ids@[i]));
                    }
                },
                LookupTreeNode::NonTerminal(subs) => {
                    assert(crate::config::lookup::subsections_all(subs@, strong));
                    assert forall|s: int, i: int|
                        0 <= s < subs@.len() && 0 <= i < subs@[s].ids@.len() implies weak(
                        #[trigger] subs@[s].ids@[i],
                    ) by {
                        assert(strong(subs@[s].ids@[i]));
                    }
                },
            }
        }
    }
}

/// The bytes of an optional name.
pub open spec fn name_view(name: Option<Vec<u8>>) -> Option<Seq<u8>> {
    match name {
        Some(name) => Some(name@),
        None => None,
    }
}

/// The bytes of an optional string.
pub open spec fn str_view(name: Option<&str>) -> Option<Seq<u8>> {
    match name {
        Some(name) => Some(name.spec_bytes()),
        None => None,
    }
}

impl File {
    /// Whether `id` names a section of the file.
    pub open spec fn live(&self, id: SectionId) -> bool {
        live_in(self.sections@)(id)
    }

    /// Whether the file is consistent: ids are given out in order, each section has a
    /// header and a body, and what the index and the order name are sections of the file.
    pub open spec fn wf(&self) -> bool {
        &&& self.sections@.len() == self.section_id_counter
        &&& self.section_headers@.len() == self.section_id_counter
        &&& forall|i: int|
            0 <= i < self.section_id_counter ==> (#[trigger] self.sections@[i] is Some)
                == (self.section_headers@[i] is Some)
        &&& tree_all(self.section_lookup_tree@, live_in(self.sections@))
        &&& forall|k: int|
            0 <= k < self.section_order@.len() ==> self.live(#[trigger] self.section_order@[k])
    }

    /// The ids of the sections named `name` with the subsection `sub`, or without one,
    /// oldest first; or why there are none.
    pub open spec fn ids(&self, name: Seq<u8>, sub: Option<Seq<u8>>) -> Result<
        Seq<SectionId>,
        LookupError,
    > {
        ids_in(self.section_lookup_tree@, name, sub)
    }

    /// The events of the section `id`.
    pub open spec fn body(&self, id: SectionId) -> Seq<Event> {
        self.sections@[id.0 as int]->Some_0@
    }

    /// The header of the section `id`.
    pub open spec fn header(&self, id: SectionId) -> ParsedSectionHeader {
        self.section_headers@[id.0 as int]->Some_0
    }

    /// A file without content.
    pub fn new() -> (file: File)
        ensures
            file.wf(),
            file.frontmatter_events@.len() == 0,
            file.section_lookup_tree@.len() == 0,
            file.sections@.len() == 0,
            file.section_headers@.len() == 0,
            file.section_id_counter == 0,
            file.section_order@.len() == 0,
    {
        File {
            frontmatter_events: SectionBody::new(),
            section_lookup_tree: Vec::new(),
            sections: Vec::new(),
            section_headers: Vec::new(),
            section_id_counter: 0,
            section_order: Vec::new(),
        }
    }

    /// Adds a section with the given header and body at the end of the file, and gives
    /// its id. In the index it becomes the newest section of its name and subsection.
    pub fn push_section_internal(&mut self, header: ParsedSectionHeader, section: SectionBody) -> (id:
        SectionId)
        requires
            old(self).wf(),
        ensures
            final(self).wf(),
            id.0 == old(self).section_id_counter,
            final(self).section_id_counter == old(self).section_id_counter + 1,
            final(self).sections@ == old(self).sections@.push(Some(section)),
            final(self).section_headers@ == old(self).section_headers@.push(Some(header)),
            final(self).section_order@ == old(self).section_order@.push(id),
            final(self).frontmatter_events == old(self).frontmatter_events,
            final(self).ids(header.name@, name_view(header.subsection_name)) == Ok::<
                Seq<SectionId>,
                LookupError,
            >(
                after_adding(
                    found_ids(old(self).ids(header.name@, name_view(header.subsection_name))),
                    id,
                ),
            ),
            forall|n: Seq<u8>, s: Option<Seq<u8>>|
                !same_name(n, header.name@) ==> #[trigger] final(self).ids(n, s) == old(self).ids(
                    n,
                    s,
                ),
            forall|n: Seq<u8>, s: Option<Seq<u8>>|
                same_name(n, header.name@) && s != name_view(header.subsection_name)
                    ==> #[trigger] final(self).ids(n, s) == beside_added(old(self).ids(n, s)),
            forall|n: Seq<u8>|
                same_name(n, header.name@) ==> #[trigger] final(self).ids(
                    n,
                    name_view(header.subsection_name),
                ) == Ok::<Seq<SectionId>, LookupError>(
                    after_adding(
                        found_ids(old(self).ids(n, name_view(header.subsection_name))),
                        id,
                    ),
                ),
            final(self).file_bytes() == old(self).file_bytes() + header.bytes() + written(
                section@,
            ),
            tree_model(final(self).section_lookup_tree@) == tree_with(
                tree_model(old(self).section_lookup_tree@),
                header.name@,
                name_view(header.subsection_name),
                id,
            ),
    {
        let id = SectionId(self.section_id_counter);
        let ghost old_sections = self.sections@;
        let ghost new_sections = old_sections.push(Some(section));
        proof {
            assert forall|x: SectionId| #[trigger] live_in(old_sections)(x) implies live_in(
                new_sections,
            )(x) by {
                assert(new_sections[x.0 as int] == old_sections[x.0 as int]);
            }
            lemma_tree_all_weaken(
                self.section_lookup_tree@,
                live_in(old_sections),
                live_in(new_sections),
            );
            assert(live_in(new_sections)(id));
        }
        match &header.subsection_name {
            Some(sub) => {
                add_to_tree(
                    &mut self.section_lookup_tree,
                    header.name.as_slice(),
                    Some(sub.as_slice()),
                    id,
                    Ghost(live_in(new_sections)),
                );
            },
            None => {
                add_to_tree(
                    &mut self.section_lookup_tree,
                    header.name.as_slice(),
                    None,
                    id,
                    Ghost(live_in(new_sections)),
                );
            },
        }
        self.section_headers.push(Some(header));
        self.sections.push(Some(section));
        self.section_order.push(id);
        self.section_id_counter = self.sections.len();
        proof {
            assert(self.sections@ == new_sections);
            assert forall|k: int| 0 <= k < self.section_order@.len() implies self.live(
                #[trigger] self.section_order@[k],
            ) by {
                if k < old(self).section_order@.len() {
                    assert(old(self).live(old(self).section_order@[k]));
                }
            }
            lemma_sections_written_kept(old(self), self, old(self).section_order@.len() as int);
            assert(self.file_bytes() =~= old(self).file_bytes() + header.bytes() + written(
                section@,
            ));
        }
        id
    }
}

/// The bytes of an optional string.
pub fn sub_bytes<'a>(sub: Option<&'a str>) -> (bytes: Option<&'a [u8]>)
    ensures
        sub_view(bytes) == str_view(sub),
{
    match sub {
        Some(sub) => Some(sub.as_bytes()),
        None => None,
    }
}

/// The value of `key` in the last of the first `end` sections of `ids` that holds it.
pub open spec fn last_value(file: &File, ids: Seq<SectionId>, key: Seq<u8>, end: int) -> Option<
    Seq<u8>,
>
    decreases end,
{
    if end <= 0 {
        None
    } else {
        match value_of(file.body(ids[end - 1]), key) {
            Some(value) => Some(value),
            None => last_value(file, ids, key, end - 1),
        }
    }
}

/// The values of `key` in the first `end` sections of `ids`, oldest first.
pub open spec fn all_values(file: &File, ids: Seq<SectionId>, key: Seq<u8>, end: int) -> Seq<
    Seq<u8>,
>
    decreases end,
{
    if end <= 0 {
        Seq::empty()
    } else {
        all_values(file, ids, key, end - 1) + values_from(file.body(ids[end - 1]), key, 0)
    }
}

/// The number of entries in the first `end` sections by id.
pub open spec fn entries_upto(sections: Seq<Option<SectionBody>>, end: int) -> nat
    decreases end,
{
    if end <= 0 {
        0
    } else {
        entries_upto(sections, end - 1) + match sections[end - 1] {
            Some(body) => keys_before(body@, body@.len() as int),
            None => 0nat,
        }
    }
}

/// The headers and bodies of the first `end` sections in file order, as they stand in
/// the file.
pub open spec fn sections_written(file: &File, end: int) -> Seq<u8>
    decreases end,
{
    if end <= 0 {
        Seq::empty()
    } else {
        let id = file.section_order@[end - 1];
        sections_written(file, end - 1) + file.header(id).bytes() + written(file.body(id))
    }
}

impl File {
    /// The value that the file gives to `key` in the sections named `name` with the
    /// subsection `sub`: that of the newest section that holds the key.
    pub open spec fn raw_value_of(&self, name: Seq<u8>, sub: Option<Seq<u8>>, key: Seq<u8>) -> Result<
        Seq<u8>,
        LookupError,
    > {
        match self.ids(name, sub) {
            Err(err) => Err(err),
            Ok(ids) => match last_value(self, ids, key, ids.len() as int) {
                Some(value) => Ok(value),
                None => Err(LookupError::KeyMissing),
            },
        }
    }

    /// All values that the file gives to `key` in the sections named `name` with the
    /// subsection `sub`, oldest first.
    pub open spec fn raw_multi_value_of(
        &self,
        name: Seq<u8>,
        sub: Option<Seq<u8>>,
        key: Seq<u8>,
    ) -> Result<Seq<Seq<u8>>, LookupError> {
        match self.ids(name, sub) {
            Err(err) => Err(err),
            Ok(ids) => if all_values(self, ids, key, ids.len() as int).len() == 0 {
                Err(LookupError::KeyMissing)
            } else {
                Ok(all_values(self, ids, key, ids.len() as int))
            },
        }
    }

    /// The file as bytes: what stands before the first section, then every section in
    /// file order, header first.
    pub open spec fn file_bytes(&self) -> Seq<u8> {
        written(self.frontmatter_events@) + sections_written(self, self.section_order@.len() as int)
    }

    /// The ids of the sections named `section_name` with the subsection
    /// `subsection_name`, or without one, oldest first.
    pub fn section_ids_by_name_and_subname(
        &self,
        section_name: &str,
        subsection_name: Option<&str>,
    ) -> (ids: Result<Vec<SectionId>, LookupError>)
        requires
            self.wf(),
        ensures
            match ids {
                Ok(ids) => self.ids(section_name.spec_bytes(), str_view(subsection_name)) == Ok::<
                    Seq<SectionId>,
                    LookupError,
                >(ids@) && forall|i: int| 0 <= i < ids@.len() ==> self.live(#[trigger] ids@[i]),
                Err(err) => self.ids(section_name.spec_bytes(), str_view(subsection_name)) == Err::<
                    Seq<SectionId>,
                    LookupError,
                >(err),
            },
    {
        proof {
            lemma_found_all(
                self.section_lookup_tree@,
                section_name.spec_bytes(),
                str_view(subsection_name),
                live_in(self.sections@),
            );
        }
        let ids = lookup(
            &self.section_lookup_tree,
            section_name.as_bytes(),
            sub_bytes(subsection_name),
        );
        proof {
            if let Ok(found) = &ids {
                let spec_ids = ids_in(
                    self.section_lookup_tree@,
                    section_name.spec_bytes(),
                    str_view(subsection_name),
                )->Ok_0;
                assert forall|i: int| 0 <= i < found@.len() implies self.live(#[trigger] found@[i]) by {
                    assert(live_in(self.sections@)(spec_ids[i]));
                }
            }
        }
        ids
    }

    /// The ids of all sections named `section_name`, whatever their subsection.
    pub fn section_ids_by_name(&self, section_name: &str) -> (ids: Result<
        Vec<SectionId>,
        LookupError,
    >)
        requires
            self.wf(),
        ensures
            match ids {
                Ok(ids) => ids_named(self.section_lookup_tree@, section_name.spec_bytes()) == Ok::<
                    Seq<SectionId>,
                    LookupError,
                >(ids@) && forall|i: int| 0 <= i < ids@.len() ==> self.live(#[trigger] ids@[i]),
                Err(err) => ids_named(self.section_lookup_tree@, section_name.spec_bytes()) == Err::<
                    Seq<SectionId>,
                    LookupError,
                >(err),
            },
    {
        proof {
            lemma_named_all(
                self.section_lookup_tree@,
                section_name.spec_bytes(),
                live_in(self.sections@),
            );
        }
        let ids = lookup_named(&self.section_lookup_tree, section_name.as_bytes());
        proof {
            if let Ok(found) = &ids {
                let spec_ids = ids_named(self.section_lookup_tree@, section_name.spec_bytes())->Ok_0;
                assert forall|i: int| 0 <= i < found@.len() implies self.live(#[trigger] found@[i]) by {
                    assert(live_in(self.sections@)(spec_ids[i]));
                }
            }
        }
        ids
    }

    /// The body of the section `id`.
    pub fn body_of(&self, id: SectionId) -> (body: &SectionBody)
        requires
            self.live(id),
        ensures
            body@ == self.body(id),
    {
        match &self.sections[id.0] {
            Some(body) => body,
            None => vstd::pervasive::unreached(),
        }
    }

    /// The header of the section `id`.
    pub fn header_of(&self, id: SectionId) -> (header: &ParsedSectionHeader)
        requires
            id.0 < self.section_headers@.len(),
            self.section_headers@[id.0 as int] is Some,
        ensures
            *header == self.header(id),
    {
        match &self.section_headers[id.0] {
            Some(header) => header,
            None => vstd::pervasive::unreached(),
        }
    }

    /// The body of the newest section named `section_name` with the subsection
    /// `subsection_name`, or without one.
    pub fn section(&self, section_name: &str, subsection_name: Option<&str>) -> (body: Result<
        &SectionBody,
        LookupError,
    >)
        requires
            self.wf(),
        ensures
            match self.ids(section_name.spec_bytes(), str_view(subsection_name)) {
                Err(err) => body == Err::<&SectionBody, LookupError>(err),
                Ok(ids) => if ids.len() == 0 {
                    body == Err::<&SectionBody, LookupError>(LookupError::SubSectionMissing)
                } else {
                    body is Ok && body->Ok_0@ == self.body(ids.last())
                },
            },
    {
        let ids = match self.section_ids_by_name_and_subname(section_name, subsection_name) {
            Ok(ids) => ids,
            Err(err) => {
                return Err(err);
            },
        };
        if ids.len() == 0 {
            return Err(LookupError::SubSectionMissing);
        }
        Ok(self.body_of(ids[ids.len() - 1]))
    }

    /// The bodies of all sections named `section_name`, whatever their subsection. None
    /// if there is no such section.
    pub fn sections_by_name(&self, section_name: &str) -> (bodies: Vec<&SectionBody>)
        requires
            self.wf(),
        ensures
            match ids_named(self.section_lookup_tree@, section_name.spec_bytes()) {
                Err(_) => bodies@.len() == 0,
                Ok(ids) => bodies@.len() == ids.len() && forall|i: int|
                    0 <= i < ids.len() ==> (#[trigger] bodies@[i])@ == self.body(ids[i]),
            },
    {
        let mut bodies: Vec<&SectionBody> = Vec::new();
        let ids = match self.section_ids_by_name(section_name) {
            Ok(ids) => ids,
            Err(_) => {
                return bodies;
            },
        };
        let mut i: usize = 0;
        while i < ids.len()
            invariant
                i <= ids@.len(),
                bodies@.len() == i,
                forall|j: int| 0 <= j < ids@.len() ==> self.live(#[trigger] ids@[j]),
                forall|j: int| 0 <= j < i ==> (#[trigger] bodies@[j])@ == self.body(ids@[j]),
            decreases ids@.len() - i,
        {
            bodies.push(self.body_of(ids[i]));
            i += 1;
        }
        bodies
    }

    /// The headers and bodies of all sections named `section_name`, whatever their
    /// subsection. None if there is no such section.
    pub fn sections_by_name_with_header(&self, section_name: &str) -> (sections: Vec<
        (&ParsedSectionHeader, &SectionBody),
    >)
        requires
            self.wf(),
        ensures
            match ids_named(self.section_lookup_tree@, section_name.spec_bytes()) {
                Err(_) => sections@.len() == 0,
                Ok(ids) => sections@.len() == ids.len() && forall|i: int|
                    0 <= i < ids.len() ==> *(#[trigger] sections@[i]).0 == self.header(ids[i])
                        && sections@[i].1@ == self.body(ids[i]),
            },
    {
        let mut sections: Vec<(&ParsedSectionHeader, &SectionBody)> = Vec::new();
        let ids = match self.section_ids_by_name(section_name) {
            Ok(ids) => ids,
            Err(_) => {
                return sections;
            },
        };
        let mut i: usize = 0;
        while i < ids.len()
            invariant
                self.wf(),
                i <= ids@.len(),
                sections@.len() == i,
                forall|j: int| 0 <= j < ids@.len() ==> self.live(#[trigger] ids@[j]),
                forall|j: int|
                    0 <= j < i ==> *(#[trigger] sections@[j]).0 == self.header(ids@[j])
                        && sections@[j].1@ == self.body(ids@[j]),
            decreases ids@.len() - i,
        {
            sections.push((self.header_of(ids[i]), self.body_of(ids[i])));
            i += 1;
        }
        sections
    }

    /// The value of `key` in the sections named `section_name` with the subsection
    /// `subsection_name`, or without one: that of the newest section that holds the key,
    /// as it stands in the file.
    pub fn raw_value(&self, section_name: &str, subsection_name: Option<&str>, key: &str) -> (value:
        Result<Vec<u8>, LookupError>)
        requires
            self.wf(),
        ensures
            match value {
                Ok(v) => self.raw_value_of(
                    section_name.spec_bytes(),
                    str_view(subsection_name),
                    key.spec_bytes(),
                ) == Ok::<Seq<u8>, LookupError>(v@),
                Err(err) => self.raw_value_of(
                    section_name.spec_bytes(),
                    str_view(subsection_name),
                    key.spec_bytes(),
                ) == Err::<Seq<u8>, LookupError>(err),
            },
    {
        let ids = match self.section_ids_by_name_and_subname(section_name, subsection_name) {
            Ok(ids) => ids,
            Err(err) => {
                return Err(err);
            },
        };
        let mut i: usize = ids.len();
        while i > 0
            invariant
                i <= ids@.len(),
                self.ids(section_name.spec_bytes(), str_view(subsection_name)) == Ok::<
                    Seq<SectionId>,
                    LookupError,
                >(ids@),
                forall|j: int| 0 <= j < ids@.len() ==> self.live(#[trigger] ids@[j]),
                last_value(self, ids@, key.spec_bytes(), ids@.len() as int) == last_value(
                    self,
                    ids@,
                    key.spec_bytes(),
                    i as int,
                ),
            decreases i,
        {
            i -= 1;
            let found = self.body_of(ids[i]).value(key.as_bytes());
            proof {
                let here = value_of(self.body(ids@[i as int]), key.spec_bytes());
                assert(last_value(self, ids@, key.spec_bytes(), i as int + 1) == match here {
                    Some(value) => Some(value),
                    None => last_value(self, ids@, key.spec_bytes(), i as int),
                });
            }
            if let Some(value) = found {
                return Ok(value);
            }
        }
        Err(LookupError::KeyMissing)
    }

    /// All values of `key` in the sections named `section_name` with the subsection
    /// `subsection_name`, or without one, oldest first.
    pub fn raw_multi_value(&self, section_name: &str, subsection_name: Option<&str>, key: &str) -> (values:
        Result<Vec<Vec<u8>>, LookupError>)
        requires
            self.wf(),
        ensures
            match values {
                Ok(v) => self.raw_multi_value_of(
                    section_name.spec_bytes(),
                    str_view(subsection_name),
                    key.spec_bytes(),
                ) == Ok::<Seq<Seq<u8>>, LookupError>(v@.map_values(|b: Vec<u8>| b@)),
                Err(err) => self.raw_multi_value_of(
                    section_name.spec_bytes(),
                    str_view(subsection_name),
                    key.spec_bytes(),
                ) == Err::<Seq<Seq<u8>>, LookupError>(err),
            },
    {
        let ids = match self.section_ids_by_name_and_subname(section_name, subsection_name) {
            Ok(ids) => ids,
            Err(err) => {
                return Err(err);
            },
        };
        let mut values: Vec<Vec<u8>> = Vec::new();
        let mut i: usize = 0;
        assert(values@.map_values(|b: Vec<u8>| b@) =~= Seq::<Seq<u8>>::empty());
        while i < ids.len()
            invariant
                i <= ids@.len(),
                forall|j: int| 0 <= j < ids@.len() ==> self.live(#[trigger] ids@[j]),
                values@.map_values(|b: Vec<u8>| b@) == all_values(
                    self,
                    ids@,
                    key.spec_bytes(),
                    i as int,
                ),
            decreases ids@.len() - i,
        {
            let mut found = self.body_of(ids[i]).values(key.as_bytes());
            let ghost before = values@.map_values(|b: Vec<u8>| b@);
            let ghost added = found@.map_values(|b: Vec<u8>| b@);
            values.append(&mut found);
            assert(values@.map_values(|b: Vec<u8>| b@) =~= before + added);
            i += 1;
        }
        if values.len() == 0 {
            Err(LookupError::KeyMissing)
        } else {
            Ok(values)
        }
    }

    /// The number of entries in the file. Comments and empty sections count nothing.
    pub fn len(&self) -> (count: usize)
        requires
            self.wf(),
            entries_upto(self.sections@, self.sections@.len() as int) <= usize::MAX,
        ensures
            count == entries_upto(self.sections@, self.sections@.len() as int),
    {
        let mut count: usize = 0;
        let mut i: usize = 0;
        while i < self.sections.len()
            invariant
                i <= self.sections@.len(),
                count == entries_upto(self.sections@, i as int),
                entries_upto(self.sections@, self.sections@.len() as int) <= usize::MAX,
            decreases self.sections@.len() - i,
        {
            proof {
                lemma_entries_monotonic(self.sections@, i as int + 1, self.sections@.len() as int);
            }
            if let Some(body) = &self.sections[i] {
                count += body.len();
            }
            i += 1;
        }
        count
    }

    /// Whether the file has no entry. Comments and empty sections are no entries.
    pub fn is_empty(&self) -> (empty: bool)
        requires
            self.wf(),
        ensures
            empty == (entries_upto(self.sections@, self.sections@.len() as int) == 0),
    {
        let mut i: usize = 0;
        while i < self.sections.len()
            invariant
                i <= self.sections@.len(),
                entries_upto(self.sections@, i as int) == 0,
            decreases self.sections@.len() - i,
        {
            if let Some(body) = &self.sections[i] {
                if !body.is_empty() {
                    proof {
                        lemma_entries_monotonic(
                            self.sections@,
                            i as int + 1,
                            self.sections@.len() as int,
                        );
                    }
                    return false;
                }
            }
            i += 1;
        }
        true
    }

    /// Whether the file can be written: every section that the file order names has a
    /// header and a body. A consistent file can be.
    pub open spec fn writable(&self) -> bool {
        forall|k: int|
            0 <= k < self.section_order@.len() ==> self.live(#[trigger] self.section_order@[k])
                && self.section_order@[k].0 < self.section_headers@.len()
                && self.section_headers@[self.section_order@[k].0 as int] is Some
    }

    /// Tells whether the file can be written.
    pub fn is_writable(&self) -> (ok: bool)
        ensures
            ok == self.writable(),
            self.wf() ==> ok,
    {
        let mut k: usize = 0;
        while k < self.section_order.len()
            invariant
                k <= self.section_order@.len(),
                forall|j: int|
                    0 <= j < k ==> self.live(#[trigger] self.section_order@[j])
                        && self.section_order@[j].0 < self.section_headers@.len()
                        && self.section_headers@[self.section_order@[j].0 as int] is Some,
            decreases self.section_order@.len() - k,
        {
            let at = self.section_order[k].0;
            if at >= self.sections.len() || at >= self.section_headers.len() {
                assert(!(self.live(self.section_order@[k as int]) && self.section_order@[k as int].0
                    < self.section_headers@.len()));
                return false;
            }
            if self.sections[at].is_none() || self.section_headers[at].is_none() {
                assert(!(self.live(self.section_order@[k as int])
                    && self.section_headers@[self.section_order@[k as int].0 as int] is Some));
                return false;
            }
            k += 1;
        }
        true
    }

    /// The file as bytes, as it would stand on disk.
    pub fn to_bytes(&self) -> (bytes: Vec<u8>)
        requires
            self.writable(),
        ensures
            bytes@ == self.file_bytes(),
    {
        let mut out: Vec<u8> = Vec::new();
        write_events(self.frontmatter_events.as_ref(), &mut out);
        let mut k: usize = 0;
        assert(out@ =~= written(self.frontmatter_events@) + sections_written(self, 0));
        while k < self.section_order.len()
            invariant
                self.writable(),
                k <= self.section_order@.len(),
                out@ == written(self.frontmatter_events@) + sections_written(self, k as int),
            decreases self.section_order@.len() - k,
        {
            let id = self.section_order[k];
            let ghost before = out@;
            self.header_of(id).write_to(&mut out);
            write_events(self.body_of(id).as_ref(), &mut out);
            assert(out@ =~= written(self.frontmatter_events@) + sections_written(self, k as int + 1));
            k += 1;
        }
        out
    }
}

/// Sections that are the same in two files, in the same order, are written the same.
pub proof fn lemma_sections_written_kept(a: &File, b: &File, end: int)
    requires
        0 <= end <= a.section_order@.len(),
        end <= b.section_order@.len(),
        forall|k: int| 0 <= k < end ==> a.section_order@[k] == b.section_order@[k],
        forall|k: int|
            0 <= k < end ==> a.header(#[trigger] a.section_order@[k]) == b.header(
                a.section_order@[k],
            ) && a.body(a.section_order@[k]) == b.body(a.section_order@[k]),
    ensures
        sections_written(a, end) == sections_written(b, end),
    decreases end,
{
    if end > 0 {
        lemma_sections_written_kept(a, b, end - 1);
        assert(a.header(a.section_order@[end - 1]) == b.header(a.section_order@[end - 1]));
    }
}

/// The bytes of a section that events were gathered for but that is not yet part of a
/// file, or of the events before the first section.
pub open spec fn pending_bytes(header: Option<ParsedSectionHeader>, body: Seq<Event>) -> Seq<u8> {
    match header {
        Some(h) => h.bytes() + written(body),
        None => written(body),
    }
}

/// The positions of the headers among the first `end` events.
pub open spec fn header_positions(events: Seq<Event>, end: int) -> Seq<int>
    decreases end,
{
    if end <= 0 {
        Seq::empty()
    } else if events[end - 1] is SectionHeader {
        header_positions(events, end - 1).push(end - 1)
    } else {
        header_positions(events, end - 1)
    }
}

/// What a lookup by `name` and `sub` finds among the sections of the first `count`
/// headers, which stand at `positions`: the sections whose header has the name and the
/// subsection, oldest first.
pub open spec fn header_ids(
    events: Seq<Event>,
    positions: Seq<int>,
    count: int,
    name: Seq<u8>,
    sub: Option<Seq<u8>>,
) -> Result<Seq<SectionId>, LookupError>
    decreases count,
{
    if count <= 0 {
        Err(LookupError::SectionMissing)
    } else {
        let earlier = header_ids(events, positions, count - 1, name, sub);
        let header = events[positions[count - 1]]->SectionHeader_0;
        if same_name(name, header.name@) {
            if sub == name_view(header.subsection_name) {
                Ok(after_adding(found_ids(earlier), SectionId((count - 1) as usize)))
            } else {
                beside_added(earlier)
            }
        } else {
            earlier
        }
    }
}

/// Whether `file` holds the sections that the first `end` of `events` describe: one
/// for each header but, where `pending` is set, the last. A section has the number of
/// its header among the headers, takes the events from its header up to the next, and
/// is found by what its header names. What stands before the first header is what
/// stands before the first section.
pub open spec fn built_from(file: &File, events: Seq<Event>, end: int, pending: bool) -> bool {
    let positions = header_positions(events, end);
    let count = if pending && positions.len() > 0 {
        positions.len() - 1
    } else {
        positions.len() as int
    };
    &&& file.section_id_counter == count
    &&& file.section_order@ == Seq::new(count as nat, |k: int| SectionId(k as usize))
    &&& forall|k: int|
        0 <= k < count ==> (#[trigger] file.sections@[k]) is Some && file.section_headers@[k]
            == Some(events[positions[k]]->SectionHeader_0) && file.sections@[k]->Some_0@
            == events.subrange(
            positions[k] + 1,
            if k + 1 < positions.len() {
                positions[k + 1]
            } else {
                end
            },
        )
    &&& forall|name: Seq<u8>, sub: Option<Seq<u8>>| #[trigger]
        file.ids(name, sub) == header_ids(events, positions, count, name, sub)
    &&& positions.len() > 0 ==> file.frontmatter_events@ == events.take(positions[0])
    &&& positions.len() == 0 && !pending ==> file.frontmatter_events@ == events.take(end)
}

/// The number of headers among the first `end` of what events say.
pub open spec fn headers_said(said: Seq<EventModel>, end: int) -> nat
    decreases end,
{
    if end <= 0 {
        0
    } else if said[end - 1].kind == EventKind::SectionHeader {
        headers_said(said, end - 1) + 1
    } else {
        headers_said(said, end - 1)
    }
}

/// The index of the sections that the first `end` of what events say describe: each
/// header adds its section, under the number that it has among the headers.
pub open spec fn tree_said(said: Seq<EventModel>, end: int) -> Seq<(Seq<u8>, Seq<NodeModel>)>
    decreases end,
{
    if end <= 0 {
        Seq::empty()
    } else if said[end - 1].kind == EventKind::SectionHeader {
        tree_with(
            tree_said(said, end - 1),
            said[end - 1].name,
            said[end - 1].subsection,
            SectionId(headers_said(said, end - 1) as usize),
        )
    } else {
        tree_said(said, end - 1)
    }
}

/// As many headers are said as there are.
pub proof fn lemma_headers_said(events: Seq<Event>, end: int)
    requires
        0 <= end <= events.len(),
    ensures
        headers_said(models(events), end) == header_positions(events, end).len(),
    decreases end,
{
    if end > 0 {
        lemma_headers_said(events, end - 1);
        assert(models(events)[end - 1] == model_of(events[end - 1]));
    }
}

/// Events that are no headers leave the index as it is.
pub proof fn lemma_tree_said_kept(events: Seq<Event>, from: int, end: int)
    requires
        0 <= from <= end <= events.len(),
        forall|i: int| from <= i < end ==> !(#[trigger] events[i] is SectionHeader),
    ensures
        tree_said(models(events), end) == tree_said(models(events), from),
    decreases end - from,
{
    if from < end {
        lemma_tree_said_kept(events, from, end - 1);
        assert(models(events)[end - 1] == model_of(events[end - 1]));
    }
}

/// Once the section of the last header before `n` was added to the index of what
/// stands before that header, the index is that of all that stands before `n`.
pub proof fn lemma_tree_grown(
    events: Seq<Event>,
    n: int,
    before: Seq<(Seq<u8>, Seq<NodeModel>)>,
    after: Seq<(Seq<u8>, Seq<NodeModel>)>,
)
    requires
        0 <= n <= events.len(),
        header_positions(events, n).len() > 0,
        before == tree_said(models(events), header_positions(events, n).last()),
        after == tree_with(
            before,
            (events[header_positions(events, n).last()]->SectionHeader_0).name@,
            name_view((events[header_positions(events, n).last()]->SectionHeader_0).subsection_name),
            SectionId((header_positions(events, n).len() - 1) as usize),
        ),
    ensures
        after == tree_said(models(events), n),
{
    let positions = header_positions(events, n);
    let p = positions.last();
    lemma_header_positions(events, n);
    lemma_last_header(events, n);
    lemma_headers_said(events, p);
    assert(models(events)[p] == model_of(events[p]));
    assert(tree_said(models(events), p + 1) == after);
    lemma_tree_said_kept(events, p + 1, n);
}

/// No header stands after the last header before `end`, and as many stand before it
/// as there are other headers.
pub proof fn lemma_last_header(events: Seq<Event>, end: int)
    requires
        0 <= end <= events.len(),
        header_positions(events, end).len() > 0,
    ensures
        0 <= header_positions(events, end).last() < end,
        events[header_positions(events, end).last()] is SectionHeader,
        forall|i: int|
            header_positions(events, end).last() < i < end ==> !(#[trigger] events[i]
                is SectionHeader),
        header_positions(events, header_positions(events, end).last()).len()
            == header_positions(events, end).len() - 1,
    decreases end,
{
    if end > 0 {
        if events[end - 1] is SectionHeader {
            assert(header_positions(events, end).last() == end - 1);
            assert(header_positions(events, end).drop_last() =~= header_positions(events, end - 1));
        } else {
            lemma_last_header(events, end - 1);
        }
    }
}

/// Whether `file` holds the sections of events that say `said`.
pub open spec fn read_as(file: &File, said: Seq<EventModel>) -> bool {
    exists|events: Seq<Event>| #[trigger]
        models(events) == said && built_from(file, events, events.len() as int, false)
}

/// The positions of headers are positions of headers, in ascending order.
pub proof fn lemma_header_positions(events: Seq<Event>, end: int)
    requires
        0 <= end <= events.len(),
    ensures
        forall|k: int|
            0 <= k < header_positions(events, end).len() ==> 0 <= (#[trigger] header_positions(
                events,
                end,
            )[k]) < end && events[header_positions(events, end)[k]] is SectionHeader,
        forall|j: int, k: int|
            0 <= j < k < header_positions(events, end).len() ==> header_positions(events, end)[j]
                < header_positions(events, end)[k],
        header_positions(events, end).len() <= end,
    decreases end,
{
    if end > 0 {
        lemma_header_positions(events, end - 1);
    }
}

/// A file without sections holds what the events up to their first header describe,
/// once what stands before that header is set.
pub proof fn lemma_built_first(then: &File, file: &File, events: Seq<Event>, n: int)
    requires
        0 <= n < events.len(),
        events[n] is SectionHeader,
        header_positions(events, n).len() == 0,
        built_from(then, events, n, true),
        file.section_id_counter == then.section_id_counter,
        file.section_order == then.section_order,
        file.sections == then.sections,
        file.section_headers == then.section_headers,
        file.section_lookup_tree == then.section_lookup_tree,
        file.frontmatter_events@ == events.take(n),
    ensures
        built_from(file, events, n + 1, true),
{
    let positions = header_positions(events, n + 1);
    assert(positions == header_positions(events, n).push(n));
    assert(positions[0] == n);
    assert forall|name: Seq<u8>, sub: Option<Seq<u8>>| #[trigger]
        file.ids(name, sub) == header_ids(events, positions, 0, name, sub) by {
        assert(file.ids(name, sub) == then.ids(name, sub));
    }
}

/// What a file holds of the events up to `n` it holds of the events up to the next,
/// where that is no header.
pub proof fn lemma_built_later(file: &File, events: Seq<Event>, n: int)
    requires
        0 <= n < events.len(),
        !(events[n] is SectionHeader),
        built_from(file, events, n, true),
    ensures
        built_from(file, events, n + 1, true),
{
    let positions = header_positions(events, n);
    assert(header_positions(events, n + 1) == positions);
    assert forall|k: int| 0 <= k < file.section_id_counter implies (#[trigger] file.sections@[k])
        is Some && file.section_headers@[k] == Some(events[positions[k]]->SectionHeader_0)
        && file.sections@[k]->Some_0@ == events.subrange(
        positions[k] + 1,
        if k + 1 < positions.len() {
            positions[k + 1]
        } else {
            n + 1
        },
    ) by {
        assert(k + 1 < positions.len());
    }
}

/// What a lookup finds among the first headers does not depend on later positions.
pub proof fn lemma_header_ids_kept(
    events: Seq<Event>,
    a: Seq<int>,
    b: Seq<int>,
    count: int,
    name: Seq<u8>,
    sub: Option<Seq<u8>>,
)
    requires
        0 <= count <= a.len(),
        count <= b.len(),
        forall|k: int| 0 <= k < count ==> a[k] == b[k],
    ensures
        header_ids(events, a, count, name, sub) == header_ids(events, b, count, name, sub),
    decreases count,
{
    if count > 0 {
        lemma_header_ids_kept(events, a, b, count - 1, name, sub);
    }
}

/// Adds the section that was gathered for the last header among the first `n` events.
/// Where `more` is set, the event at `n` is the next header.
fn push_gathered(
    file: &mut File,
    header: ParsedSectionHeader,
    body: Vec<Event>,
    Ghost(all): Ghost<Seq<Event>>,
    Ghost(n): Ghost<int>,
    Ghost(more): Ghost<bool>,
)
    requires
        old(file).wf(),
        0 <= n <= all.len(),
        built_from(old(file), all, n, true),
        header_positions(all, n).len() > 0,
        header == all[header_positions(all, n).last()]->SectionHeader_0,
        body@ == all.subrange(header_positions(all, n).last() + 1, n),
        more ==> n < all.len() && all[n] is SectionHeader,
    ensures
        final(file).wf(),
        final(file).file_bytes() == old(file).file_bytes() + header.bytes() + written(body@),
        final(file).frontmatter_events == old(file).frontmatter_events,
        final(file).section_order@.len() > 0,
        more ==> built_from(final(file), all, n + 1, true),
        !more ==> built_from(final(file), all, n, false),
        tree_model(final(file).section_lookup_tree@) == tree_with(
            tree_model(old(file).section_lookup_tree@),
            header.name@,
            name_view(header.subsection_name),
            SectionId(old(file).section_id_counter),
        ),
{
    let ghost positions = header_positions(all, n);
    let ghost pushed = positions.len() - 1;
    let ghost then = *file;
    proof {
        lemma_header_positions(all, n);
    }
    file.push_section_internal(header, SectionBody(body));
    proof {
        let longer = if more {
            positions.push(n)
        } else {
            positions
        };
        let end = if more {
            n + 1
        } else {
            n
        };
        assert(header_positions(all, end) == longer);
        assert(file.section_order@ =~= Seq::new(
            (pushed + 1) as nat,
            |k: int| SectionId(k as usize),
        ));
        assert forall|k: int| 0 <= k < pushed + 1 implies (#[trigger] file.sections@[k]) is Some
            && file.section_headers@[k] == Some(all[longer[k]]->SectionHeader_0)
            && file.sections@[k]->Some_0@ == all.subrange(
            longer[k] + 1,
            if k + 1 < longer.len() {
                longer[k + 1]
            } else {
                end
            },
        ) by {
            if k < pushed {
                assert(file.sections@[k] == then.sections@[k]);
                assert(file.section_headers@[k] == then.section_headers@[k]);
                assert(then.sections@[k] is Some);
            }
        }
        assert forall|name: Seq<u8>, sub: Option<Seq<u8>>| #[trigger]
            file.ids(name, sub) == header_ids(all, longer, pushed + 1, name, sub) by {
            lemma_header_ids_kept(all, positions, longer, pushed, name, sub);
            assert(then.ids(name, sub) == header_ids(all, positions, pushed, name, sub));
            assert(all[longer[pushed]]->SectionHeader_0 == header);
            if same_name(name, header.name@) {
                if sub == name_view(header.subsection_name) {
                    assert(file.ids(name, name_view(header.subsection_name)) == Ok::<
                        Seq<SectionId>,
                        LookupError,
                    >(
                        after_adding(
                            found_ids(then.ids(name, name_view(header.subsection_name))),
                            SectionId(pushed as usize),
                        ),
                    ));
                }
            }
        }
        assert(longer[0] == positions[0]);
    }
}

impl File {
    /// Builds the file that `events` describe: the events before the first header are
    /// what stands before the first section, and every header starts a section that
    /// takes the events up to the next header. The sections are numbered from zero in
    /// their order, and the file is written as the events are.
    pub fn from_events(events: Vec<Event>) -> (file: File)
        ensures
            file.wf(),
            file.file_bytes() == written(events@),
            built_from(&file, events@, events@.len() as int, false),
            tree_model(file.section_lookup_tree@) == tree_said(
                models(events@),
                events@.len() as int,
            ),
    {
        let ghost all = events@;
        let len = events.len();
        let mut file = File::new();
        let mut header: Option<ParsedSectionHeader> = None;
        let mut body: Vec<Event> = Vec::new();
        proof {
            assert(written(all.take(0)) =~= Seq::<u8>::empty());
            assert(file.file_bytes() =~= Seq::<u8>::empty());
            assert(file.section_order@ =~= Seq::new(0nat, |k: int| SectionId(k as usize)));
            assert(body@ =~= all.take(0));
        }
        for event in it: events
            invariant
                it.seq() == all,
                all.len() == len,
                file.wf(),
                written(all.take(it.index() as int)) == file.file_bytes() + pending_bytes(
                    header,
                    body@,
                ),
                header is None ==> file.section_order@.len() == 0
                    && file.frontmatter_events@.len() == 0,
                built_from(&file, all, it.index() as int, true),
                (header is Some) == (header_positions(all, it.index() as int).len() > 0),
                header matches Some(h) ==> h == all[header_positions(
                    all,
                    it.index() as int,
                ).last()]->SectionHeader_0 && body@ == all.subrange(
                    header_positions(all, it.index() as int).last() + 1,
                    it.index() as int,
                ),
                header is None ==> body@ == all.take(it.index() as int),
                tree_model(file.section_lookup_tree@) == tree_said(
                    models(all),
                    if header is Some {
                        header_positions(all, it.index() as int).last()
                    } else {
                        it.index() as int
                    },
                ),
        {
            let ghost n = it.index() as int;
            let ghost positions = header_positions(all, n);
            let ghost file_then = file;
            let ghost tree_then = tree_model(file.section_lookup_tree@);
            proof {
                assert(models(all)[n] == model_of(event));
                assert(all.take(n + 1) =~= all.take(n).push(event));
                lemma_written_push(all.take(n), event);
                lemma_header_positions(all, n);
            }
            match event {
                Event::SectionHeader(next) => {
                    let ghost gathered = pending_bytes(header, body@);
                    let ghost earlier = file.file_bytes();
                    proof {
                        assert(header_positions(all, n + 1) == positions.push(n));
                    }
                    match header {
                        Some(prev) => {
                            push_gathered(&mut file, prev, body, Ghost(all), Ghost(n), Ghost(true));
                            proof {
                                lemma_tree_grown(all, n, tree_then, tree_model(file.section_lookup_tree@));
                            }
                        },
                        None => {
                            file.frontmatter_events = SectionBody(body);
                            proof {
                                assert(sections_written(&file, 0) =~= Seq::<u8>::empty());
                                assert(file.file_bytes() =~= earlier + gathered);
                                lemma_built_first(&file_then, &file, all, n);
                            }
                        },
                    }
                    proof {
                        assert(file.file_bytes() =~= earlier + gathered);
                        assert(written(Seq::<Event>::empty()) =~= Seq::<u8>::empty());
                        assert(file.file_bytes() + (next.bytes() + Seq::<u8>::empty()) =~= earlier
                            + gathered + next.bytes());
                    }
                    header = Some(next);
                    body = Vec::new();
                    proof {
                        assert(body@ =~= all.subrange(n + 1, n + 1));
                    }
                },
                other => {
                    let ghost before = body@;
                    proof {
                        lemma_written_push(before, other);
                        assert(header_positions(all, n + 1) == positions);
                    }
                    body.push(other);
                    proof {
                        if header is None {
                            assert(tree_said(models(all), n + 1) == tree_said(models(all), n));
                        }
                        match &header {
                            Some(h) => {
                                assert(file.file_bytes() + (h.bytes() + written(body@))
                                    =~= file.file_bytes() + (h.bytes() + written(before))
                                    + other.bytes());
                                assert(body@ =~= all.subrange(positions.last() + 1, n + 1));
                            },
                            None => {
                                assert(file.file_bytes() + written(body@) =~= file.file_bytes()
                                    + written(before) + other.bytes());
                                assert(body@ =~= all.take(n + 1));
                            },
                        }
                        lemma_built_later(&file, all, n);
                    }
                },
            }
        }
        proof {
            assert(all.take(len as int) =~= all);
        }
        let ghost file_then = file;
        let ghost gathered = pending_bytes(header, body@);
        let ghost earlier = file.file_bytes();
        let ghost tree_then = tree_model(file.section_lookup_tree@);
        match header {
            Some(prev) => {
                proof {
                    lemma_header_positions(all, len as int);
                }
                push_gathered(&mut file, prev, body, Ghost(all), Ghost(len as int), Ghost(false));
                proof {
                    assert(file.file_bytes() =~= earlier + gathered);
                    lemma_tree_grown(
                        all,
                        len as int,
                        tree_then,
                        tree_model(file.section_lookup_tree@),
                    );
                }
            },
            None => {
                file.frontmatter_events = SectionBody(body);
                proof {
                    assert(sections_written(&file, 0) =~= Seq::<u8>::empty());
                    assert(file.file_bytes() =~= earlier + gathered);
                    assert forall|name: Seq<u8>, sub: Option<Seq<u8>>| #[trigger]
                        file.ids(name, sub) == header_ids(
                            all,
                            header_positions(all, len as int),
                            0,
                            name,
                            sub,
                        ) by {
                        assert(file.ids(name, sub) == file_then.ids(name, sub));
                    }
                }
            },
        }
        file
    }

    /// Reads a file from its bytes, where the grammar takes them. The file is written
    /// back as the very same bytes. Input that the grammar does not take is refused,
    /// with the position of the first byte that does not fit.
    pub fn from_bytes(input: &[u8]) -> (file: Result<File, ParseError>)
        ensures
            match parsed(input@) {
                Ok(said) => file matches Ok(f) && f.wf() && f.file_bytes() == input@ && read_as(
                    &f,
                    said,
                ) && tree_model(f.section_lookup_tree@) == tree_said(said, said.len() as int),
                Err((node, at)) => file matches Err(err) && err == (ParseError {
                    node,
                    at: at as usize,
                }) && 0 <= at <= input@.len(),
            },
    {
        match parse_from_bytes(input) {
            Ok(events) => {
                let ghost list = events@;
                let file = File::from_events(events);
                proof {
                    assert(models(list) == parsed(input@)->Ok_0 && built_from(
                        &file,
                        list,
                        list.len() as int,
                        false,
                    ));
                }
                Ok(file)
            },
            Err(err) => Err(err),
        }
    }

    /// Reads a file from a string, as [`File::from_bytes`] does from bytes.
    pub fn try_from(input: &str) -> (file: Result<File, ParseError>)
        ensures
            match parsed(input.spec_bytes()) {
                Ok(said) => file matches Ok(f) && f.wf() && f.file_bytes() == input.spec_bytes()
                    && read_as(&f, said) && tree_model(f.section_lookup_tree@) == tree_said(
                    said,
                    said.len() as int,
                ),
                Err((node, at)) => file matches Err(err) && err == (ParseError {
                    node,
                    at: at as usize,
                }) && 0 <= at <= input.spec_bytes().len(),
            },
    {
        File::from_bytes(input.as_bytes())
    }
}

/// The sections among the first `end` of `sections`, by id, that were not removed.
pub open spec fn kept_upto(sections: Seq<Option<SectionBody>>, end: int) -> Seq<Option<SectionBody>>
    decreases end,
{
    if end <= 0 {
        Seq::empty()
    } else if sections[end - 1] is Some {
        kept_upto(sections, end - 1).push(sections[end - 1])
    } else {
        kept_upto(sections, end - 1)
    }
}

impl File {
    /// Adds a section named `section_name`, with the subsection `subsection_name` if
    /// one is given, at the end of the file, and gives its id. A subsection is written
    /// in quotes after a blank.
    pub fn push_section(
        &mut self,
        section_name: &str,
        subsection_name: Option<&str>,
        section: SectionBody,
    ) -> (id: SectionId)
        requires
            old(self).wf(),
        ensures
            final(self).wf(),
            id.0 == old(self).section_id_counter,
            final(self).section_id_counter == old(self).section_id_counter + 1,
            final(self).sections@ == old(self).sections@.push(Some(section)),
            final(self).section_headers@.len() == old(self).section_headers@.len() + 1,
            final(self).section_headers@.drop_last() == old(self).section_headers@,
            final(self).header(id).name@ == section_name.spec_bytes(),
            name_view(final(self).header(id).subsection_name) == str_view(subsection_name),
            name_view(final(self).header(id).separator) == (if subsection_name is Some {
                Some(seq![0x20u8])
            } else {
                None
            }),
            final(self).section_order@ == old(self).section_order@.push(id),
            final(self).frontmatter_events == old(self).frontmatter_events,
            final(self).file_bytes() == old(self).file_bytes() + final(self).header(id).bytes()
                + written(section@),
            final(self).ids(section_name.spec_bytes(), str_view(subsection_name)) == Ok::<
                Seq<SectionId>,
                LookupError,
            >(
                after_adding(
                    found_ids(old(self).ids(section_name.spec_bytes(), str_view(subsection_name))),
                    id,
                ),
            ),
            forall|n: Seq<u8>, s: Option<Seq<u8>>|
                !same_name(n, section_name.spec_bytes()) ==> #[trigger] final(self).ids(n, s)
                    == old(self).ids(n, s),
            forall|n: Seq<u8>, s: Option<Seq<u8>>|
                same_name(n, section_name.spec_bytes()) && s != str_view(subsection_name)
                    ==> #[trigger] final(self).ids(n, s) == beside_added(old(self).ids(n, s)),
            forall|n: Seq<u8>|
                same_name(n, section_name.spec_bytes()) ==> #[trigger] final(self).ids(
                    n,
                    str_view(subsection_name),
                ) == Ok::<Seq<SectionId>, LookupError>(
                    after_adding(found_ids(old(self).ids(n, str_view(subsection_name))), id),
                ),
            tree_model(final(self).section_lookup_tree@) == tree_with(
                tree_model(old(self).section_lookup_tree@),
                section_name.spec_bytes(),
                str_view(subsection_name),
                id,
            ),
    {
        let header = match subsection_name {
            Some(sub) => {
                let mut blank: Vec<u8> = Vec::new();
                blank.push(0x20);
                assert(blank@ =~= seq![0x20u8]);
                ParsedSectionHeader {
                    name: copy_slice(section_name.as_bytes()),
                    separator: Some(blank),
                    subsection_name: Some(copy_slice(sub.as_bytes())),
                }
            },
            None => ParsedSectionHeader {
                name: copy_slice(section_name.as_bytes()),
                separator: None,
                subsection_name: None,
            },
        };
        let id = self.push_section_internal(header, section);
        assert(self.section_headers@.drop_last() =~= old(self).section_headers@);
        id
    }

    /// Adds an empty section named `section_name`, with the subsection
    /// `subsection_name` if one is given, at the end of the file, and gives its id. The
    /// body of the section holds a line end, so that entries start on a line of their own.
    pub fn new_section(&mut self, section_name: &str, subsection_name: Option<&str>) -> (id:
        SectionId)
        requires
            old(self).wf(),
        ensures
            final(self).wf(),
            id.0 == old(self).section_id_counter,
            final(self).section_id_counter == old(self).section_id_counter + 1,
            final(self).sections@.len() == old(self).sections@.len() + 1,
            final(self).sections@.drop_last() == old(self).sections@,
            final(self).live(id),
            final(self).body(id).len() == 1,
            final(self).body(id)[0] is Newline,
            final(self).body(id)[0].text() == seq![0x0au8],
            final(self).header(id).name@ == section_name.spec_bytes(),
            name_view(final(self).header(id).subsection_name) == str_view(subsection_name),
            name_view(final(self).header(id).separator) == (if subsection_name is Some {
                Some(seq![0x20u8])
            } else {
                None
            }),
            final(self).section_headers@.len() == old(self).section_headers@.len() + 1,
            final(self).section_headers@.drop_last() == old(self).section_headers@,
            final(self).frontmatter_events == old(self).frontmatter_events,
            final(self).file_bytes() == old(self).file_bytes() + final(self).header(id).bytes()
                + seq![0x0au8],
            final(self).section_order@ == old(self).section_order@.push(id),
            final(self).ids(section_name.spec_bytes(), str_view(subsection_name)) == Ok::<
                Seq<SectionId>,
                LookupError,
            >(
                after_adding(
                    found_ids(old(self).ids(section_name.spec_bytes(), str_view(subsection_name))),
                    id,
                ),
            ),
            forall|n: Seq<u8>, s: Option<Seq<u8>>|
                !same_name(n, section_name.spec_bytes()) ==> #[trigger] final(self).ids(n, s)
                    == old(self).ids(n, s),
            forall|n: Seq<u8>, s: Option<Seq<u8>>|
                same_name(n, section_name.spec_bytes()) && s != str_view(subsection_name)
                    ==> #[trigger] final(self).ids(n, s) == beside_added(old(self).ids(n, s)),
            forall|n: Seq<u8>|
                same_name(n, section_name.spec_bytes()) ==> #[trigger] final(self).ids(
                    n,
                    str_view(subsection_name),
                ) == Ok::<Seq<SectionId>, LookupError>(
                    after_adding(found_ids(old(self).ids(n, str_view(subsection_name))), id),
                ),
            tree_model(final(self).section_lookup_tree@) == tree_with(
                tree_model(old(self).section_lookup_tree@),
                section_name.spec_bytes(),
                str_view(subsection_name),
                id,
            ),
    {
        let mut line_end: Vec<u8> = Vec::new();
        line_end.push(0x0a);
        assert(line_end@ =~= seq![0x0au8]);
        let mut events: Vec<Event> = Vec::new();
        events.push(Event::Newline(line_end));
        let ghost body = events@;
        let id = self.push_section(section_name, subsection_name, SectionBody(events));
        proof {
            assert(self.sections@.drop_last() =~= old(self).sections@);
            assert(body.drop_last() =~= Seq::<Event>::empty());
            assert(written(body.drop_last()) =~= Seq::<u8>::empty());
            assert(written(body) =~= seq![0x0au8]);
        }
        id
    }

    /// Removes the newest section named `section_name` with the subsection
    /// `subsection_name`, or without one, and gives its body. The section leaves the
    /// file, its order and its index; all other sections stay as they are.
    pub fn remove_section(&mut self, section_name: &str, subsection_name: Option<&str>) -> (removed:
        Option<SectionBody>)
        requires
            old(self).wf(),
        ensures
            final(self).wf(),
            final(self).section_id_counter == old(self).section_id_counter,
            final(self).frontmatter_events == old(self).frontmatter_events,
            match old(self).ids(section_name.spec_bytes(), str_view(subsection_name)) {
                Ok(ids) if ids.len() > 0 => {
                    let id = ids.last();
                    &&& removed is Some
                    &&& removed->Some_0@ == old(self).body(id)
                    &&& final(self).sections@ == old(self).sections@.update(id.0 as int, None)
                    &&& final(self).section_headers@ == old(self).section_headers@.update(
                        id.0 as int,
                        None,
                    )
                    &&& final(self).section_order@ == without(old(self).section_order@, id)
                    &&& forall|n: Seq<u8>, s: Option<Seq<u8>>| #[trigger]
                        final(self).ids(n, s) == after_removing(old(self).ids(n, s), id)
                },
                _ => {
                    &&& removed is None
                    &&& final(self).sections@ == old(self).sections@
                    &&& final(self).section_headers@ == old(self).section_headers@
                    &&& final(self).section_order@ == old(self).section_order@
                    &&& final(self).section_lookup_tree@ == old(self).section_lookup_tree@
                },
            },
    {
        let ids = match self.section_ids_by_name_and_subname(section_name, subsection_name) {
            Ok(ids) => ids,
            Err(_) => {
                return None;
            },
        };
        if ids.len() == 0 {
            return None;
        }
        let id = ids[ids.len() - 1];
        let ghost old_sections = self.sections@;
        let ghost old_tree = self.section_lookup_tree@;
        let body = self.sections.remove(id.0);
        self.sections.insert(id.0, None);
        let _ = self.section_headers.remove(id.0);
        self.section_headers.insert(id.0, None);
        let order = remove_id(&self.section_order, id);
        self.section_order = order;
        let tree = purge_tree(&self.section_lookup_tree, id);
        self.section_lookup_tree = tree;
        proof {
            assert(self.sections@ =~= old_sections.update(id.0 as int, None));
            assert(self.section_headers@ =~= old(self).section_headers@.update(id.0 as int, None));
            lemma_purged_all(old_tree, self.section_lookup_tree@, id, live_in(old_sections));
            let strong = |x: SectionId| live_in(old_sections)(x) && x != id;
            assert forall|x: SectionId| #[trigger] strong(x) implies live_in(self.sections@)(x) by {
                assert(x.0 != id.0);
            }
            lemma_tree_all_weaken(self.section_lookup_tree@, strong, live_in(self.sections@));
            lemma_without_members(old(self).section_order@, id);
            assert forall|k: int| 0 <= k < self.section_order@.len() implies self.live(
                #[trigger] self.section_order@[k],
            ) by {
                let x = self.section_order@[k];
                assert(old(self).section_order@.contains(x));
                let j = choose|j: int|
                    0 <= j < old(self).section_order@.len() && old(self).section_order@[j] == x;
                assert(old(self).live(old(self).section_order@[j]));
                assert(x.0 != id.0);
            }
            assert forall|n: Seq<u8>, s: Option<Seq<u8>>| #[trigger]
                self.ids(n, s) == after_removing(old(self).ids(n, s), id) by {
                lemma_purged_lookup(old_tree, self.section_lookup_tree@, id, n, s);
            }
        }
        match body {
            Some(body) => Some(body),
            None => vstd::pervasive::unreached(),
        }
    }

    /// Gives the newest section named `section_name` with the subsection
    /// `subsection_name`, or without one, a new name and a new subsection in its header.
    /// What stands between the two in the header stays, and so does the index: the
    /// section is still found under its old name.
    pub fn rename_section(
        &mut self,
        section_name: &str,
        subsection_name: Option<&str>,
        new_section_name: &str,
        new_subsection_name: Option<&str>,
    ) -> (renamed: Result<(), LookupError>)
        requires
            old(self).wf(),
        ensures
            final(self).wf(),
            final(self).sections == old(self).sections,
            final(self).section_order == old(self).section_order,
            final(self).section_lookup_tree == old(self).section_lookup_tree,
            final(self).section_id_counter == old(self).section_id_counter,
            final(self).frontmatter_events == old(self).frontmatter_events,
            match old(self).ids(section_name.spec_bytes(), str_view(subsection_name)) {
                Ok(ids) if ids.len() > 0 => {
                    let id = ids.last();
                    &&& renamed is Ok
                    &&& final(self).section_headers@.len() == old(self).section_headers@.len()
                    &&& forall|i: int|
                        0 <= i < old(self).section_headers@.len() && i != id.0
                            ==> #[trigger] final(self).section_headers@[i] == old(
                            self,
                        ).section_headers@[i]
                    &&& final(self).header(id).name@ == new_section_name.spec_bytes()
                    &&& name_view(final(self).header(id).subsection_name) == str_view(
                        new_subsection_name,
                    )
                    &&& final(self).header(id).separator == old(self).header(id).separator
                },
                Ok(_) => renamed == Err::<(), LookupError>(LookupError::SubSectionMissing)
                    && final(self).section_headers == old(self).section_headers,
                Err(err) => renamed == Err::<(), LookupError>(err) && final(self).section_headers
                    == old(self).section_headers,
            },
    {
        let ids = match self.section_ids_by_name_and_subname(section_name, subsection_name) {
            Ok(ids) => ids,
            Err(err) => {
                return Err(err);
            },
        };
        if ids.len() == 0 {
            return Err(LookupError::SubSectionMissing);
        }
        let id = ids[ids.len() - 1];
        let header = match self.section_headers.remove(id.0) {
            Some(header) => header,
            None => vstd::pervasive::unreached(),
        };
        let renamed = ParsedSectionHeader {
            name: copy_slice(new_section_name.as_bytes()),
            separator: header.separator,
            subsection_name: match new_subsection_name {
                Some(sub) => Some(copy_slice(sub.as_bytes())),
                None => None,
            },
        };
        self.section_headers.insert(id.0, Some(renamed));
        assert(self.section_headers@ =~= old(self).section_headers@.update(
            id.0 as int,
            Some(renamed),
        ));
        Ok(())
    }
}

/// The number of entries grows with the number of sections counted.
pub proof fn lemma_entries_monotonic(sections: Seq<Option<SectionBody>>, a: int, b: int)
    requires
        a <= b,
    ensures
        entries_upto(sections, a) <= entries_upto(sections, b),
    decreases b - a,
{
    if a < b {
        lemma_entries_monotonic(sections, a, b - 1);
    }
}

} // verus!
