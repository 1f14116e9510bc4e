use databas::checksum::{checksum_matches, write_page_checksum, PAGE_DATA_END};
use databas::disk::DiskManager;
use databas::error::StorageError;
use databas::header::{DatabaseHeader, FIRST_DATA_PAGE_ID, HEADER_PAGE_ID};
use databas::types::PAGE_SIZE;

fn random_page_buffer(rng: &mut fastrand::Rng) -> Vec<u8> {
    let mut buf = vec![0u8; PAGE_SIZE];
    for c in &mut buf[..PAGE_DATA_END] {
        *c = rng.u8(..);
    }
    write_page_checksum(&mut buf);
    buf
}

#[test]
fn can_read_written_page_after_closing_file() {
    let mut rng = fastrand::Rng::new();

    let write_buf = random_page_buffer(&mut rng);
    let file = {
        let mut dm = DiskManager::open(Vec::new()).unwrap();
        let page_id = dm.new_page().unwrap();
        dm.write_page(page_id, &write_buf).unwrap();
        dm.into_file()
    };
    let dm = DiskManager::open(file).unwrap();
    let read_buf = dm.read_page(FIRST_DATA_PAGE_ID).unwrap();
    assert_eq!(read_buf, write_buf);
    assert_eq!(dm.page_count(), 2);
}

#[test]
fn cannot_read_out_of_bounds_page() {
    let dm = DiskManager::open(Vec::new()).unwrap();
    let page_id = 5000;
    let read = dm.read_page(page_id);
    assert!(matches!(read, Err(StorageError::InvalidPageId(id)) if id == page_id));
}

#[test]
fn cannot_write_out_of_bounds_page() {
    let mut dm = DiskManager::open(Vec::new()).unwrap();
    let buf = vec![0u8; PAGE_SIZE];
    let page_id = 5000;
    let write = dm.write_page(page_id, &buf);
    assert!(matches!(write, Err(StorageError::InvalidPageId(id)) if id == page_id));
}

#[test]
fn new_rejects_files_with_invalid_size() {
    let invalid_size = PAGE_SIZE - 1;
    let file = vec![0u8; invalid_size];

    let dm = DiskManager::open(file);
    assert!(matches!(
        dm,
        Err(StorageError::InvalidFileSize(size)) if size == invalid_size as u64
    ));
}

#[test]
fn new_page_allocates_sequential_page_ids_and_persists_count() {
    let file = {
        let mut dm = DiskManager::open(Vec::new()).unwrap();
        assert_eq!(dm.new_page().unwrap(), 1);
        assert_eq!(dm.new_page().unwrap(), 2);
        assert_eq!(dm.new_page().unwrap(), 3);
        assert_eq!(dm.page_count(), 4);
        dm.into_file()
    };

    let dm = DiskManager::open(file).unwrap();
    assert_eq!(dm.page_count(), 4);

    let header_page = dm.read_page(HEADER_PAGE_ID).unwrap();
    let header = DatabaseHeader::read(&header_page).unwrap();
    assert_eq!(header.page_count, 4);

    let mut expected = vec![0u8; PAGE_SIZE];
    write_page_checksum(&mut expected);
    for page_id in FIRST_DATA_PAGE_ID..dm.page_count() {
        let buf = dm.read_page(page_id).unwrap();
        assert_eq!(buf, expected);
    }
}

#[test]
fn page_id_equal_to_page_count_is_out_of_bounds() {
    let mut dm = DiskManager::open(Vec::new()).unwrap();
    let page_id = dm.new_page().unwrap();
    assert_eq!(page_id, FIRST_DATA_PAGE_ID);

    let invalid_page_id = dm.page_count();
    let write_buf = vec![7u8; PAGE_SIZE];

    let read = dm.read_page(invalid_page_id);
    assert!(matches!(
        read,
        Err(StorageError::InvalidPageId(id)) if id == invalid_page_id
    ));

    let write = dm.write_page(invalid_page_id, &write_buf);
    assert!(matches!(
        write,
        Err(StorageError::InvalidPageId(id)) if id == invalid_page_id
    ));
}

#[test]
fn multi_page_reads_and_writes_do_not_overlap() {
    let mut rng = fastrand::Rng::new();
    let mut dm = DiskManager::open(Vec::new()).unwrap();

    let page_count = 4u64;
    for expected_page_id in FIRST_DATA_PAGE_ID..(FIRST_DATA_PAGE_ID + page_count) {
        assert_eq!(dm.new_page().unwrap(), expected_page_id);
    }

    let write_bufs: Vec<Vec<u8>> = (0..page_count).map(|_| random_page_buffer(&mut rng)).collect();

    for (index, buf) in write_bufs.iter().enumerate() {
        dm.write_page((index as u64) + FIRST_DATA_PAGE_ID, buf).unwrap();
    }

    for (index, expected_buf) in write_bufs.iter().enumerate() {
        let read_buf = dm.read_page((index as u64) + FIRST_DATA_PAGE_ID).unwrap();
        assert_eq!(&read_buf, expected_buf);
    }
}

#[test]
fn writing_a_page_twice_persists_the_latest_contents() {
    let mut rng = fastrand::Rng::new();

    let (page_id, expected_buf, file) = {
        let mut dm = DiskManager::open(Vec::new()).unwrap();
        let page_id = dm.new_page().unwrap();
        let first = random_page_buffer(&mut rng);
        let second = random_page_buffer(&mut rng);

        dm.write_page(page_id, &first).unwrap();
        dm.write_page(page_id, &second).unwrap();
        (page_id, second, dm.into_file())
    };

    let dm = DiskManager::open(file).unwrap();
    let read_buf = dm.read_page(page_id).unwrap();
    assert_eq!(read_buf, expected_buf);
}

#[test]
fn newly_allocated_pages_are_zero_initialized() {
    let mut dm = DiskManager::open(Vec::new()).unwrap();
    let page_id = dm.new_page().unwrap();
    assert_eq!(page_id, FIRST_DATA_PAGE_ID);

    let read_buf = dm.read_page(page_id).unwrap();
    let mut expected = vec![0u8; PAGE_SIZE];
    write_page_checksum(&mut expected);
    assert_eq!(read_buf, expected);
}

#[test]
fn new_initializes_database_header_page() {
    let dm = DiskManager::open(Vec::new()).unwrap();
    assert_eq!(dm.page_count(), 1);

    let header_page = dm.read_page(HEADER_PAGE_ID).unwrap();
    let header = DatabaseHeader::read(&header_page).unwrap();
    assert_eq!(header.page_count, 1);
    assert_eq!(header.page_size, PAGE_SIZE as u16);
}

#[test]
fn open_rejects_invalid_database_magic() {
    let mut file = DiskManager::open(Vec::new()).unwrap().into_file();

    file[0] ^= 0xFF;
    let mut page: Vec<u8> = file[..PAGE_SIZE].to_vec();
    write_page_checksum(&mut page);
    file[..PAGE_SIZE].copy_from_slice(&page);

    let err = match DiskManager::open(file) {
        Ok(_) => panic!("expected invalid database magic"),
        Err(err) => err,
    };
    assert!(matches!(err, StorageError::InvalidDatabaseHeader("invalid magic")));
}

#[test]
fn open_rejects_mismatched_header_page_size() {
    let mut file = DiskManager::open(Vec::new()).unwrap().into_file();

    file[16..18].copy_from_slice(&0u16.to_le_bytes());
    let mut page: Vec<u8> = file[..PAGE_SIZE].to_vec();
    write_page_checksum(&mut page);
    file[..PAGE_SIZE].copy_from_slice(&page);

    let err = match DiskManager::open(file) {
        Ok(_) => panic!("expected mismatched header page size"),
        Err(err) => err,
    };
    assert!(matches!(err, StorageError::InvalidDatabaseHeader("invalid page size")));
}

#[test]
fn open_rejects_mismatched_header_page_count() {
    let mut file = {
        let mut dm = DiskManager::open(Vec::new()).unwrap();
        dm.new_page().unwrap();
        dm.into_file()
    };

    file[18..26].copy_from_slice(&999u64.to_le_bytes());
    let mut page: Vec<u8> = file[..PAGE_SIZE].to_vec();
    write_page_checksum(&mut page);
    file[..PAGE_SIZE].copy_from_slice(&page);

    let err = match DiskManager::open(file) {
        Ok(_) => panic!("expected mismatched header page count"),
        Err(err) => err,
    };
    assert!(matches!(
        err,
        StorageError::InvalidDatabaseHeader("page count does not match file size")
    ));
}

#[test]
fn read_page_fails_when_checksum_is_invalid() {
    let mut rng = fastrand::Rng::new();
    let (page_id, mut file) = {
        let mut dm = DiskManager::open(Vec::new()).unwrap();
        let page_id = dm.new_page().unwrap();
        dm.write_page(page_id, &random_page_buffer(&mut rng)).unwrap();
        (page_id, dm.into_file())
    };

    let offset = page_id as usize * PAGE_SIZE;
    file[offset] ^= 0xAA;

    let dm = DiskManager::open(file).unwrap();
    let err = dm.read_page(page_id).unwrap_err();
    assert!(matches!(err, StorageError::InvalidPageChecksum(id) if id == page_id));
}

#[test]
fn write_page_overwrites_trailing_checksum_bytes() {
    let mut dm = DiskManager::open(Vec::new()).unwrap();
    let page_id = dm.new_page().unwrap();
    let mut write_buf = vec![9u8; PAGE_SIZE];
    write_buf[PAGE_DATA_END..].fill(0xEE);

    dm.write_page(page_id, &write_buf).unwrap();

    let read_buf = dm.read_page(page_id).unwrap();
    assert_eq!(&read_buf[..PAGE_DATA_END], &write_buf[..PAGE_DATA_END]);
    assert_ne!(&read_buf[PAGE_DATA_END..], &write_buf[PAGE_DATA_END..]);
    assert!(checksum_matches(&read_buf));
}

#[test]
fn page_checksum_agrees_with_its_source() {
    let mut rng = fastrand::Rng::new();
    let page = random_page_buffer(&mut rng);
    let computed = databas::checksum::compute_page_checksum(&page);
    let expected = crc32_v2::crc32(0, &page[..PAGE_DATA_END]);
    assert_eq!(computed, expected);
    assert_eq!(databas::checksum::stored_page_checksum(&page), expected);
}
