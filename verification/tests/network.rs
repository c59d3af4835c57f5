use atomica::implant::MESH_SYNERGY_CAP;
use atomica::Pan;

#[test]
fn meshed_synergy_counts_implants_beyond_the_first_up_to_the_cap() {
    assert_eq!(Pan::Meshed.synergy(0), 0);
    assert_eq!(Pan::Meshed.synergy(1), 0);
    assert_eq!(Pan::Meshed.synergy(2), 1);
    assert_eq!(Pan::Meshed.synergy(4), 3);
    assert_eq!(Pan::Meshed.synergy(9), MESH_SYNERGY_CAP);
    assert_eq!(Pan::Segmented.synergy(9), 0);
}

#[test]
fn a_cascading_breach_trips_the_whole_mesh_but_a_segmented_pan_contains_it() {
    let digital = vec![1usize, 3, 4];
    assert_eq!(Pan::Meshed.breach_slots(&digital, true), vec![1, 3, 4]);
    assert_eq!(Pan::Meshed.breach_slots(&digital, false), vec![1]);
    assert_eq!(Pan::Segmented.breach_slots(&digital, true), vec![1]);
    assert_eq!(Pan::Segmented.breach_slots(&vec![], true), Vec::<usize>::new());
}
