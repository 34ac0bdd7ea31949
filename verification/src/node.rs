use vstd::prelude::*;

verus! {

/// A morpheme as the grammar logic reads it: its surface text and MeCab's comma-separated
/// feature string (品詞,品詞細分類1,品詞細分類2,品詞細分類3,活用型,活用形,原形,読み,発音).
pub struct MecabNode {
    pub surface: String,
    pub feature: String,
}

/// The plain-value view of a node.
pub struct SpecNode {
    pub surface: Seq<char>,
    pub feature: Seq<char>,
}

impl View for MecabNode {
    type V = SpecNode;

    open spec fn view(&self) -> SpecNode {
        SpecNode { surface: self.surface@, feature: self.feature@ }
    }
}

/// The views of a sequence of nodes.
pub open spec fn node_views(nodes: Seq<MecabNode>) -> Seq<SpecNode> {
    nodes.map_values(|n: MecabNode| n@)
}

/// Whether a lattice node of the given status is a morpheme: the status codes 2, 3 and 4 mark
/// the beginning of the sentence, its end and the end of an n-best list.
pub fn is_morpheme_stat(stat: u8) -> (res: bool)
    ensures
        res == (stat < 2),
{
    stat < 2
}

impl MecabNode {
    pub fn new(surface: String, feature: String) -> (res: MecabNode)
        ensures
            res@ == (SpecNode { surface: surface@, feature: feature@ }),
    {
        MecabNode { surface, feature }
    }

    /// A copy of this node.
    pub fn duplicate(&self) -> (res: MecabNode)
        ensures
            res@ == self@,
    {
        MecabNode { surface: self.surface.clone(), feature: self.feature.clone() }
    }
}

} // verus!
