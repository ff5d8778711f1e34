use vstd::prelude::*;

verus! {

/// The height at column `x` of row `y`, if the map has that cell.
pub fn get_height<'a>(map: &'a Vec<Vec<u32>>, x: &usize, y: &usize) -> (r: Option<&'a u32>)
    ensures
        r matches Some(h) ==> *y < map@.len() && *x < map@[*y as int]@.len() && *h == map@[*y as int]@[*x as int],
        r is None ==> !(*y < map@.len() && *x < map@[*y as int]@.len()),
{
    if *y < map.len() {
        let row = &map[*y];
        if *x < row.len() {
            Some(&row[*x])
        } else {
            None
        }
    } else {
        None
    }
}

} // verus!
