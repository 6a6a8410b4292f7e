use kpsolver::compatible_problem_type_trait::{CompatibleProblemType, UnboundedCompatibility};
use kpsolver::knapsack::fits_type;
use kpsolver::unbounded;

#[test]
fn keys_go_there_and_back() {
    assert_eq!(u32::type_to_key(4_000_000_000), 4_000_000_000);
    assert_eq!(u16::type_to_key(65535), 65535);
    assert_eq!(u8::type_to_key(7), 7);
    assert_eq!(u32::key_to_type(4_000_000_000), 4_000_000_000);
    assert_eq!(u16::key_to_type(65535), 65535);
    assert_eq!(u8::key_to_type(0), 0);
    assert_eq!(<u32 as CompatibleProblemType>::identity(), 1);
    assert_eq!(<u16 as CompatibleProblemType>::identity(), 1);
    assert_eq!(<u8 as CompatibleProblemType>::identity(), 1);
}

#[test]
fn keys_beyond_the_limit_are_cut() {
    assert_eq!(u8::key_to_type(300), 44);
    assert_eq!(u16::key_to_type(65536 + 9), 9);
    assert_eq!(u32::key_to_type((1 << 32) + 5), 5);
    assert!(fits_type::<u8>(255));
    assert!(!fits_type::<u8>(256));
    assert!(fits_type::<u16>(65535));
    assert!(!fits_type::<u16>(65536));
    assert!(fits_type::<u32>(0xffff_ffff));
    assert!(!fits_type::<u32>(0x1_0000_0000));
}

#[test]
fn quantities_know_whether_they_are_limited() {
    assert!(!<u32 as UnboundedCompatibility>::is_unbounded());
    assert!(<unbounded as UnboundedCompatibility>::is_unbounded());
    assert_eq!(<u32 as UnboundedCompatibility>::null(), Some(0));
    assert_eq!(<unbounded as UnboundedCompatibility>::null(), None);
    assert_eq!(<u16 as UnboundedCompatibility>::to_amount(9), 9);
    assert_eq!(<u16 as UnboundedCompatibility>::from_amount(9), 9);
    assert_eq!(<u8 as UnboundedCompatibility>::from_amount(257), 1);
    assert_eq!(<unbounded as UnboundedCompatibility>::to_amount(unbounded), 0);
    assert_eq!(<unbounded as UnboundedCompatibility>::from_amount(77), unbounded);
}
