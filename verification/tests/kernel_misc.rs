use kernel::buffer::Buffer;
use kernel::error::from_kernel_err_ptr;
use kernel::of::OfMatchTable;
use kernel::types::ptr_align;
use kernel::error::{Error, EFAULT, EINVAL, ENOMEM, MAX_ERRNO};
use kernel::error::from_kernel_result_helper;
use kernel::types::Mode;
use kernel::user_ptr::UserSlicePtr;

#[test]
fn rust_test_kunit_kunit_tests() {
    let running = true;
    assert_eq!(running, true);
}

#[test]
fn error_round_trips_valid_errnos() {
    let e = Error::from_kernel_errno(-ENOMEM);
    assert_eq!(e.to_kernel_errno(), -ENOMEM);
    let e = Error::from_kernel_errno(-MAX_ERRNO);
    assert_eq!(e.to_kernel_errno(), -MAX_ERRNO);
}

#[test]
fn error_out_of_range_becomes_einval() {
    assert_eq!(Error::from_kernel_errno(0).to_kernel_errno(), -EINVAL);
    assert_eq!(Error::from_kernel_errno(5).to_kernel_errno(), -EINVAL);
    assert_eq!(Error::from_kernel_errno(-MAX_ERRNO - 1).to_kernel_errno(), -EINVAL);
}

#[test]
fn kernel_result_helper_follows_the_c_convention() {
    assert_eq!(from_kernel_result_helper(Ok(17)), 17);
    let e = Error::from_errno_positive(ENOMEM);
    assert_eq!(from_kernel_result_helper(Err(e)), -ENOMEM);
}

#[test]
fn buffer_counts_written_bytes() {
    let mut buf = Buffer::new(8);
    assert_eq!(buf.bytes_written(), 0);
    assert!(buf.write_str(b"abc").is_ok());
    assert_eq!(buf.bytes_written(), 3);
    assert!(buf.write_str(b"defgh").is_ok());
    assert_eq!(buf.bytes_written(), 8);
    // A ninth byte no longer fits.
    let e = buf.write_str(b"i").unwrap_err();
    assert_eq!(e.to_kernel_errno(), -EINVAL);
    assert_eq!(buf.bytes_written(), 8);
}

#[test]
fn mode_round_trips_its_bits() {
    let m = Mode::from_int(0o644);
    assert_eq!(m.as_int(), 0o644);
}

#[test]
fn user_slice_reads_all_bytes_once() {
    let slice = UserSlicePtr::new(vec![1u8, 2, 3, 4]);
    assert_eq!(slice.read_all().unwrap(), vec![1u8, 2, 3, 4]);
}

#[test]
fn user_slice_reader_moves_only_forward() {
    let slice = UserSlicePtr::new(vec![1u8, 2, 3, 4, 5]);
    let mut reader = slice.reader();
    assert_eq!(reader.len(), 5);
    assert!(!reader.is_empty());
    assert_eq!(reader.read(2).unwrap(), vec![1u8, 2]);
    assert_eq!(reader.len(), 3);
    // Asking for more than remains faults without consuming anything.
    let e = reader.read(4).unwrap_err();
    assert_eq!(e.to_kernel_errno(), -EFAULT);
    assert_eq!(reader.len(), 3);
    assert_eq!(reader.read_all().unwrap(), vec![3u8, 4, 5]);
    assert!(reader.is_empty());
}

#[test]
fn user_slice_write_all_rejects_oversized_data() {
    let slice = UserSlicePtr::new(vec![0u8; 4]);
    let written = slice.write_all(&[9u8, 8]).unwrap();
    assert_eq!(written, vec![9u8, 8, 0, 0]);
    let slice = UserSlicePtr::new(vec![0u8; 1]);
    let e = slice.write_all(&[1u8, 2]).unwrap_err();
    assert_eq!(e.to_kernel_errno(), -EFAULT);
}

#[test]
fn user_slice_writer_fills_incrementally() {
    let slice = UserSlicePtr::new(vec![0u8; 4]);
    let mut writer = slice.writer();
    assert_eq!(writer.len(), 4);
    assert!(writer.write(&[1u8]).is_ok());
    assert!(writer.write(&[2u8, 3]).is_ok());
    assert_eq!(writer.len(), 1);
    assert!(!writer.is_empty());
    let e = writer.write(&[4u8, 5]).unwrap_err();
    assert_eq!(e.to_kernel_errno(), -EFAULT);
    assert!(writer.write(&[4u8]).is_ok());
    assert!(writer.is_empty());
}

#[test]
fn of_match_table_pads_the_compatible_field() {
    assert!(OfMatchTable::new(b"vendor,device").is_ok());
    assert!(OfMatchTable::new(&[b'x'; 128]).is_ok());
    assert!(OfMatchTable::new(&[b'x'; 129]).is_err());
}

#[test]
fn ptr_align_rounds_up_to_eight() {
    assert_eq!(ptr_align(0), 0);
    assert_eq!(ptr_align(1), 8);
    assert_eq!(ptr_align(8), 8);
    assert_eq!(ptr_align(13), 16);
}

#[test]
fn err_ptr_decoding_splits_addresses_from_errors() {
    assert_eq!(from_kernel_err_ptr(0x1000).unwrap(), 0x1000);
    // The topmost addresses carry error numbers.
    let encoded = 0usize.wrapping_sub(ENOMEM as usize);
    let e = from_kernel_err_ptr(encoded).unwrap_err();
    assert_eq!(e.to_kernel_errno(), -ENOMEM);
    let ok_boundary = 0usize.wrapping_sub(MAX_ERRNO as usize + 1);
    assert_eq!(from_kernel_err_ptr(ok_boundary).unwrap(), ok_boundary);
}
