use vstd::prelude::*;

verus! {

/// A question of a DNS message: the name asked for, its type and its class.
#[derive(Debug, PartialEq, Eq, Hash)]
pub struct QD {
    pub qname: String,
    pub qtype: u16,
    pub qclass: u16,
}

/// What a question is made of, as plain values.
pub struct QuestionView {
    pub qname: Seq<char>,
    pub qtype: u16,
    pub qclass: u16,
}

impl View for QD {
    type V = QuestionView;

    open spec fn view(&self) -> QuestionView {
        QuestionView { qname: self.qname@, qtype: self.qtype, qclass: self.qclass }
    }
}

impl Clone for QD {
    fn clone(&self) -> (res: Self)
        ensures
            res@ == self@,
    {
        QD { qname: self.qname.clone(), qtype: self.qtype, qclass: self.qclass }
    }
}

impl QD {
    /// Whether two questions ask the same: same name, type and class.
    pub fn same(&self, other: &QD) -> (res: bool)
        ensures
            res == (self@ == other@),
    {
        self.qname == other.qname && self.qtype == other.qtype && self.qclass == other.qclass
    }
}

} // verus!
