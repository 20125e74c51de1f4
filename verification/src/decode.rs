//! Reading the references that commits, tags and trees hold.
use vstd::prelude::*;
use crate::object::ObjectId;
use git_object::commit::ref_iter::Token;
use git_object::{CommitRefIter, TagRefIter, TreeRefIter};

verus! {

/// What one header token of a commit refers to, by hash.
pub enum TokenModel {
    Tree(Seq<u8>),
    Parent(Seq<u8>),
    Other,
    Invalid,
}

/// One token of a commit, as far as expansion reads it.
#[derive(Clone, Copy, Debug)]
pub enum CommitToken {
    /// The root tree of the commit.
    Tree(ObjectId),
    /// One parent commit.
    Parent(ObjectId),
    /// Any token that follows the parents.
    Other,
    /// What stands in place of a token that does not decode.
    Invalid,
}

impl View for CommitToken {
    type V = TokenModel;

    open spec fn view(&self) -> TokenModel {
        match *self {
            CommitToken::Tree(id) => TokenModel::Tree(id@),
            CommitToken::Parent(id) => TokenModel::Parent(id@),
            CommitToken::Other => TokenModel::Other,
            CommitToken::Invalid => TokenModel::Invalid,
        }
    }
}

/// The mode bits of an entry that is a tree.
pub const MODE_TREE: u16 = 0o040000;

/// The mode bits of an entry that is the commit of a submodule, which is no object of
/// this repository.
pub const MODE_COMMIT: u16 = 0o160000;

/// One entry of a tree: its mode bits and the object it names.
#[derive(Clone, Copy, Debug)]
pub struct TreeEntry {
    pub mode: u16,
    pub id: ObjectId,
}

impl View for TreeEntry {
    type V = (u16, Seq<u8>);

    open spec fn view(&self) -> (u16, Seq<u8>) {
        (self.mode, self.id@)
    }
}

/// The view of an optional id.
pub open spec fn id_model(id: Option<ObjectId>) -> Option<Seq<u8>> {
    match id {
        Some(id) => Some(id@),
        None => None,
    }
}

/// The views of the entries of a tree.
pub open spec fn entries_model(entries: Seq<TreeEntry>) -> Seq<(u16, Seq<u8>)> {
    entries.map_values(|e: TreeEntry| e@)
}

/// The tree that the commit in `data` names, if its first line can be read.
pub uninterp spec fn commit_tree(data: Seq<u8>) -> Option<Seq<u8>>;

/// The tokens that follow the tree line of the commit in `data`, up to the first that cannot be read.
pub uninterp spec fn commit_tokens_after_tree(data: Seq<u8>) -> Seq<TokenModel>;

/// The target that the tag in `data` names, if its first line can be read.
pub uninterp spec fn tag_target(data: Seq<u8>) -> Option<Seq<u8>>;

/// The entries of the tree in `data`, if all of them can be read.
pub uninterp spec fn tree_entries(data: Seq<u8>) -> Option<Seq<(u16, Seq<u8>)>>;

/// `CommitRefIter::tree_id`: the id on the commit's tree line, or nothing
/// where that line does not decode.
#[verifier::external_body]
pub(crate) fn read_commit_tree(data: &[u8]) -> (tree: Option<ObjectId>)
    ensures
        id_model(tree) == commit_tree(data@),
{
    let id = CommitRefIter::from_bytes(data).tree_id().ok()?;
    Some(ObjectId { bytes: id.as_slice().try_into().ok()? })
}

/// `git_object::CommitRefIter` as an iterator, after `tree_id` took the tree line: the
/// tokens in order, each with the id it names, ending after the first failure.
#[verifier::external_body]
pub(crate) fn read_commit_tokens_after_tree(data: &[u8]) -> (tokens: Vec<CommitToken>)
    ensures
        tokens@.map_values(|t: CommitToken| t@) == commit_tokens_after_tree(data@),
{
    let mut iter = CommitRefIter::from_bytes(data);
    let _ = iter.tree_id();
    iter.map(|token| match token {
        Ok(Token::Tree { id }) => CommitToken::Tree(ObjectId { bytes: id.as_slice().try_into().unwrap_or_default() }),
        Ok(Token::Parent { id }) => CommitToken::Parent(ObjectId { bytes: id.as_slice().try_into().unwrap_or_default() }),
        Ok(_) => CommitToken::Other,
        Err(_) => CommitToken::Invalid,
    }).collect()
}

/// `TagRefIter::target_id`: the id on the tag's object line, or nothing where
/// that line does not decode.
#[verifier::external_body]
pub(crate) fn read_tag_target(data: &[u8]) -> (target: Option<ObjectId>)
    ensures
        id_model(target) == tag_target(data@),
{
    let id = TagRefIter::from_bytes(data).target_id().ok()?;
    Some(ObjectId { bytes: id.as_slice().try_into().ok()? })
}

/// Whether `b` is an ASCII digit from 0 to 7.
pub open spec fn is_octal(b: u8) -> bool {
    0x30 <= b <= 0x37
}

/// The first position at or after `from` that holds no octal digit.
pub open spec fn mode_end(data: Seq<u8>, from: int) -> int
    decreases data.len() - from,
{
    if from < 0 || from >= data.len() || !is_octal(data[from]) {
        from
    } else {
        mode_end(data, from + 1)
    }
}

/// The first position at or after `from` that holds a zero byte.
pub open spec fn name_end(data: Seq<u8>, from: int) -> int
    decreases data.len() - from,
{
    if from < 0 || from >= data.len() || data[from] == 0 {
        from
    } else {
        name_end(data, from + 1)
    }
}

/// Whether `data` from `from` on is a run of tree entries, each made of octal digits, a
/// space, a name, a zero byte and twenty bytes of hash.
pub open spec fn framed_from(data: Seq<u8>, from: int) -> bool
    decreases data.len() - from,
{
    if from >= data.len() {
        true
    } else if from < 0 {
        false
    } else {
        let sp = mode_end(data, from);
        let nul = name_end(data, sp + 1);
        sp >= from && sp < data.len() && data[sp] == 0x20 && nul > sp && nul + 21 <= data.len()
            && framed_from(data, nul + 21)
    }
}

/// Whether `data` is framed as a tree from its first byte to its last.
pub open spec fn well_framed(data: Seq<u8>) -> bool {
    framed_from(data, 0)
}

/// Checks that `data` is framed as a tree. Data that is not does not decode.
pub fn is_well_framed(data: &[u8]) -> (ok: bool)
    ensures
        ok == well_framed(data@),
{
    let len = data.len();
    let mut pos: usize = 0;
    while pos < len
        invariant
            len == data@.len(),
            pos <= len,
            well_framed(data@) == framed_from(data@, pos as int),
        decreases len - pos,
    {
        let mut sp: usize = pos;
        while sp < len && 0x30 <= data[sp] && data[sp] <= 0x37
            invariant
                len == data@.len(),
                pos <= sp <= len,
                mode_end(data@, pos as int) == mode_end(data@, sp as int),
            decreases len - sp,
        {
            sp += 1;
        }
        if sp >= len || data[sp] != 0x20 {
            return false;
        }
        let mut nul: usize = sp + 1;
        while nul < len && data[nul] != 0
            invariant
                len == data@.len(),
                sp < nul <= len,
                name_end(data@, sp as int + 1) == name_end(data@, nul as int),
            decreases len - nul,
        {
            nul += 1;
        }
        if nul >= len || len - nul < 21 {
            return false;
        }
        pos = nul + 21;
    }
    true
}

/// `TreeRefIter::entries`: every entry of the tree with its mode and id, or
/// nothing where one of them does not decode. Data that is not well framed is left out,
/// as an entry without a space after its mode is not survived by the decoder.
#[verifier::external_body]
pub(crate) fn read_tree_entries(data: &[u8]) -> (entries: Option<Vec<TreeEntry>>)
    requires
        well_framed(data@),
    ensures
        match entries {
            Some(list) => tree_entries(data@) == Some(entries_model(list@)),
            None => tree_entries(data@).is_none(),
        },
{
    let list = TreeRefIter::from_bytes(data).entries().ok()?;
    Some(list.into_iter().map(|e| TreeEntry {
        mode: e.mode as u16,
        id: ObjectId { bytes: e.oid.as_bytes().try_into().unwrap_or_default() },
    }).collect())
}

/// The position of the first token at or after `from` that is no parent.
pub open spec fn parents_end(tokens: Seq<TokenModel>, from: int) -> int
    decreases tokens.len() - from,
{
    if from < 0 || from >= tokens.len() || !(tokens[from] is Parent) {
        from
    } else {
        parents_end(tokens, from + 1)
    }
}

/// The parents that `tokens` start with, unless what follows them does not decode.
pub open spec fn leading_parents_of(tokens: Seq<TokenModel>) -> Option<Seq<Seq<u8>>> {
    let end = parents_end(tokens, 0);
    if end < tokens.len() && tokens[end] is Invalid {
        None
    } else {
        Some(Seq::new(end as nat, |i: int| tokens[i]->Parent_0))
    }
}

/// The ids of the parents that the tokens after a commit's tree line start with. Gives
/// nothing where the token after the last parent does not decode.
pub fn leading_parents(tokens: &Vec<CommitToken>) -> (parents: Option<Vec<ObjectId>>)
    ensures
        match parents {
            Some(ids) => leading_parents_of(tokens@.map_values(|t: CommitToken| t@)) == Some(
                ids@.map_values(|id: ObjectId| id@),
            ),
            None => leading_parents_of(tokens@.map_values(|t: CommitToken| t@)).is_none(),
        },
{
    let ghost models = tokens@.map_values(|t: CommitToken| t@);
    let mut ids: Vec<ObjectId> = Vec::new();
    let mut i: usize = 0;
    while i < tokens.len()
        invariant
            i <= tokens.len(),
            models == tokens@.map_values(|t: CommitToken| t@),
            parents_end(models, 0) == parents_end(models, i as int),
            ids@.len() == i,
            forall|j: int| 0 <= j < i ==> models[j] is Parent && ids@[j]@ == models[j]->Parent_0,
        decreases tokens.len() - i,
    {
        match tokens[i] {
            CommitToken::Parent(id) => {
                assert(models[i as int] == TokenModel::Parent(id@));
                ids.push(id);
            },
            CommitToken::Invalid => {
                assert(models[i as int] is Invalid);
                assert(parents_end(models, i as int) == i);
                return None;
            },
            _ => {
                assert(!(models[i as int] is Parent) && !(models[i as int] is Invalid));
                assert(parents_end(models, i as int) == i);
                assert(ids@.map_values(|id: ObjectId| id@) =~= Seq::new(
                    parents_end(models, 0) as nat,
                    |i: int| models[i]->Parent_0,
                ));
                return Some(ids);
            },
        }
        i += 1;
    }
    assert(parents_end(models, i as int) == i);
    assert(ids@.map_values(|id: ObjectId| id@) =~= Seq::new(
        parents_end(models, 0) as nat,
        |i: int| models[i]->Parent_0,
    ));
    Some(ids)
}

} // verus!
