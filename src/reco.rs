use vstd::prelude::*;
use vstd::string::StringExecFns;

verus! {

/// One record of an indicator file: an item and the items it indicates.
pub struct Recommendation {
    pub for_item: String,
    pub indicated_items: Vec<String>,
}

/// Record `i` is the first one whose item is `id`.
pub open spec fn is_first_match(records: Seq<Recommendation>, id: Seq<char>, i: int) -> bool {
    &&& 0 <= i < records.len()
    &&& records[i].for_item@ == id
    &&& forall|j: int| 0 <= j < i ==> records[j].for_item@ != id
}

/// The items indicated for `repo_id`, taken from the first record for it, or `None`
/// where no record is for it.
pub fn get_indicated_items(repo_id: &str, records: &Vec<Recommendation>) -> (r: Option<Vec<String>>)
    ensures
        match r {
            Some(items) => exists|i: int|
                is_first_match(records@, repo_id@, i) && items.deep_view()
                    == #[trigger] records@[i].indicated_items.deep_view(),
            None => forall|i: int| 0 <= i < records@.len() ==> records@[i].for_item@ != repo_id@,
        },
{
    let id = String::from_str(repo_id);
    let mut i: usize = 0;
    while i < records.len()
        invariant
            i <= records.len(),
            id@ == repo_id@,
            forall|j: int| 0 <= j < i ==> records@[j].for_item@ != repo_id@,
        decreases records.len() - i,
    {
        if records[i].for_item == id {
            let items = records[i].indicated_items.clone();
            proof {
                assert(is_first_match(records@, repo_id@, i as int));
            }
            return Some(items);
        }
        i += 1;
    }
    None
}

} // verus!
