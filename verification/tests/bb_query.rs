use babble::bb_query::{all_readable, BBInfo, BBQuery, Traced};
use babble::number::{Fixed, Number};

fn n(raw: i64) -> Fixed {
    Fixed { raw }
}

const TRACE: &str = "\
bb,execution_count,total_ticks,average_ticks,instr_count,operation_count,cpi
main_entry,2,30,15,5,3,3
main_loop,2000,6000000,3.5,4,2,750
";

#[test]
fn traces_are_read() {
    let query = BBQuery::<Fixed>::from_csv(TRACE).unwrap();
    assert_eq!(query.entries.len(), 2);
    let entry = query.get(&"main_loop".to_owned()).unwrap();
    assert_eq!(entry.execution_count, 2000);
    assert_eq!(entry.total_ticks, n(6_000_000_000));
    assert_eq!(entry.average_ticks, n(3500));
    assert_eq!(entry.instr_count, 4);
    assert_eq!(entry.operation_count, 2);
    assert_eq!(entry.cpi, n(750));
    assert_eq!(entry.cpo, n(1500));
    assert!(query.get(&"main_exit".to_owned()).is_none());
}

#[test]
fn counts_are_normalized() {
    let query = BBQuery::<Fixed>::from_csv(TRACE).unwrap();
    let factor = query.get_factor();
    let entry = query.get(&"main_entry".to_owned()).unwrap();
    assert_eq!(entry.execution_count_normalized, Fixed::count(2).times(factor));
}

#[test]
fn later_records_take_the_place_of_earlier_ones() {
    let text = "h,a,b,c,d,e,f\nx,1,1,1,1,1,1\nx,2,4,2,1,1,1\n";
    let query = BBQuery::<Fixed>::from_csv(text).unwrap();
    assert_eq!(query.entries.len(), 1);
    assert_eq!(query.get(&"x".to_owned()).unwrap().execution_count, 2);
}

#[test]
fn traces_that_cannot_be_read() {
    // A record with too few fields, one with no number, and one whose length
    // differs from that of the heading.
    assert!(BBQuery::<Fixed>::from_csv("a,b\nx,1\n").is_none());
    assert!(BBQuery::<Fixed>::from_csv("h,a,b,c,d,e,f\nx,y,1,1,1,1,1\n").is_none());
    assert!(BBQuery::<Fixed>::from_csv("h,a,b,c,d,e,f\nx,1,1,1,1,1\n").is_none());
}

#[test]
fn empty_traces() {
    let query = BBQuery::<Fixed>::from_csv("h,a,b,c,d,e,f\n").unwrap();
    assert_eq!(query.entries.len(), 0);
    assert_eq!(BBQuery::<Fixed>::default().get_factor(), Fixed::count(1));
}

#[test]
fn quoted_fields_are_records_of_csv() {
    let text = "h,a,b,c,d,e,f\n\"a,b\",1,1,1,1,1,1\n";
    let query = BBQuery::<Fixed>::from_csv(text).unwrap();
    assert!(query.get(&"a,b".to_owned()).is_some());
}

#[test]
fn records_are_checked() {
    let good: Vec<String> = ["x", "1", "2", "3", "4", "5", "6"].map(String::from).to_vec();
    let mut bad = good.clone();
    bad[4] = "1.5".to_owned();
    assert!(all_readable::<Fixed>(&vec![good.clone()]));
    assert!(!all_readable::<Fixed>(&vec![good, bad]));
}

#[test]
fn blocks_can_be_changed_in_place() {
    let mut op = Traced { operation: 1, bbs: vec!["a".to_owned()] };
    op.get_mut_bbs_info().push("b".to_owned());
    assert_eq!(op.bbs_info(), &vec!["a".to_owned(), "b".to_owned()]);
}
