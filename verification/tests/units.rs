use appvkek::address::get_address_from_str;
use appvkek::address::is_eoa_code;
use appvkek::address::validate_address_format;
use appvkek::ascii::ascii_lowercase;
use appvkek::ascii::bytes_eq;
use appvkek::batch::chunk_bounds;
use appvkek::calldata::encode_address_as_word;
use appvkek::calldata::parse_256_method_arguments;
use appvkek::calldata::spender_from_word;
use appvkek::config::apikey_env_name;
use appvkek::config::parse_chain;
use appvkek::config::rpc_endpoint;
use appvkek::config::ChainType;
use appvkek::errors::Error;
use appvkek::report::scale_allowance;

#[test]
fn validate_accepts_prefixed_lowercase() {
    assert!(validate_address_format(b"0xabcdef0123456789abcdef0123456789abcdef01"));
}

#[test]
fn validate_is_case_and_prefix_insensitive() {
    // The same digits in every case/prefix spelling validate identically.
    let spellings: [&[u8]; 4] = [
        b"0xABCDEF0123456789ABCDEF0123456789ABCDEF01",
        b"0XABCDEF0123456789abcdef0123456789abcdef01",
        b"abcdef0123456789abcdef0123456789abcdef01",
        b"ABCDEF0123456789ABCDEF0123456789ABCDEF01",
    ];
    for s in spellings {
        assert!(validate_address_format(s));
    }
}

#[test]
fn validate_rejects_bad_lengths_and_digits() {
    assert!(!validate_address_format(b""));
    assert!(!validate_address_format(b"0x"));
    assert!(!validate_address_format(b"0xabc"));
    // 40 characters but one is not hexadecimal
    assert!(!validate_address_format(b"zbcdef0123456789abcdef0123456789abcdef01"));
    // right length, wrong prefix
    assert!(!validate_address_format(b"1xabcdef0123456789abcdef0123456789abcdef0"));
    // 41 characters
    assert!(!validate_address_format(b"abcdef0123456789abcdef0123456789abcdef012"));
}

#[test]
fn lowercase_normalizes_mixed_case() {
    let lc = ascii_lowercase(b"0xAbCdEf01");
    assert_eq!(lc, b"0xabcdef01".to_vec());
}

#[test]
fn bytes_eq_compares_contents() {
    assert!(bytes_eq(b"abc", b"abc"));
    assert!(!bytes_eq(b"abc", b"abd"));
    assert!(!bytes_eq(b"abc", b"ab"));
}

#[test]
fn decode_address_to_bytes() {
    let decoded = get_address_from_str(b"0x00ff10abcdef0123456789abcdef0123456789ab").unwrap();
    assert_eq!(decoded.len(), 20);
    assert_eq!(decoded[0], 0x00);
    assert_eq!(decoded[1], 0xff);
    assert_eq!(decoded[2], 0x10);
    assert_eq!(decoded[19], 0xab);
}

#[test]
fn decode_address_rejects_bad_format() {
    assert_eq!(get_address_from_str(b"0x1234"), Err(Error::InvalidAddressFormat));
}

#[test]
fn eoa_decision_is_code_emptiness() {
    assert!(is_eoa_code(b""));
    assert!(!is_eoa_code(&[0x60, 0x80]));
}

#[test]
fn parse_arguments_returns_words_in_order() {
    let word1 = "00".repeat(12) + &"dd".repeat(20);
    let word2 = format!("{:064x}", 1000);
    let data = format!("0x095ea7b3{}{}", word1, word2);
    let words = parse_256_method_arguments(data.as_bytes()).unwrap();
    assert_eq!(words.len(), 2);
    assert_eq!(words[0], word1.as_bytes().to_vec());
    assert_eq!(words[1], word2.as_bytes().to_vec());
}

#[test]
fn parse_arguments_rejects_selector_only() {
    assert_eq!(parse_256_method_arguments(b"0x095ea7b3"), Err(Error::MalformedCallData));
}

#[test]
fn parse_arguments_rejects_empty_and_ragged_input() {
    assert_eq!(parse_256_method_arguments(b""), Err(Error::MalformedCallData));
    // one whole word plus a ragged tail
    let data = format!("0x095ea7b3{}{}", "aa".repeat(32), "bbbb");
    assert_eq!(parse_256_method_arguments(data.as_bytes()), Err(Error::MalformedCallData));
}

#[test]
fn spender_word_round_trip() {
    // Encoding an address into its padded word and decoding it back
    // yields the original canonical address.
    let address = b"0x00ff10abcdef0123456789abcdef0123456789ab";
    let word = encode_address_as_word(address);
    assert_eq!(word.len(), 64);
    assert_eq!(&word[..24], b"000000000000000000000000");
    let back = spender_from_word(&word);
    assert_eq!(back, address.to_vec());
}

#[test]
fn scale_exact_values() {
    assert_eq!(scale_allowance(b"500", 2), b"5".to_vec());
    assert_eq!(scale_allowance(b"1", 0), b"1".to_vec());
    assert_eq!(scale_allowance(b"123", 5), b"0.00123".to_vec());
    assert_eq!(scale_allowance(b"1000", 2), b"10".to_vec());
    assert_eq!(scale_allowance(b"0", 3), b"0".to_vec());
    assert_eq!(scale_allowance(b"105", 1), b"10.5".to_vec());
    assert_eq!(scale_allowance(b"123456", 18), b"0.000000000000123456".to_vec());
}

#[test]
fn chunk_bounds_ceiling_and_coverage() {
    // ceil(5 / 2) == 3 sequential batches covering 0..5 in order.
    assert_eq!(chunk_bounds(5, 2), vec![(0, 2), (2, 4), (4, 5)]);
    assert_eq!(chunk_bounds(4, 2), vec![(0, 2), (2, 4)]);
    assert_eq!(chunk_bounds(0, 2000), vec![]);
    assert_eq!(chunk_bounds(1, 2000), vec![(0, 1)]);
    assert_eq!(chunk_bounds(2001, 2000), vec![(0, 2000), (2000, 2001)]);
}

#[test]
fn chunked_processing_equals_unchunked() {
    // The union of the per-chunk results equals processing all items at once.
    let items: Vec<u64> = (0..7).map(|i| i * i).collect();
    let mut chunked: Vec<u64> = Vec::new();
    for (start, end) in chunk_bounds(items.len(), 3) {
        for item in &items[start..end] {
            chunked.push(item + 1);
        }
    }
    let direct: Vec<u64> = items.iter().map(|item| item + 1).collect();
    assert_eq!(chunked, direct);
}

#[test]
fn parse_chain_values() {
    assert_eq!(parse_chain(b"bsc"), Some(ChainType::Bsc));
    assert_eq!(parse_chain(b"BSC"), Some(ChainType::Bsc));
    assert_eq!(parse_chain(b"Ethereum"), Some(ChainType::Ethereum));
    assert_eq!(parse_chain(b"polygon"), Some(ChainType::Polygon));
    assert_eq!(parse_chain(b"solana"), None);
    assert_eq!(parse_chain(b""), None);
}

#[test]
fn chain_endpoints_and_key_names() {
    assert_eq!(rpc_endpoint(ChainType::Bsc), "https://bsc-dataseed.binance.org/");
    assert_eq!(rpc_endpoint(ChainType::Ethereum), "https://rpc.ankr.com/eth");
    assert_eq!(rpc_endpoint(ChainType::Polygon), "https://polygon-rpc.com/");
    assert_eq!(apikey_env_name(ChainType::Bsc), "APPVKEK_BSCSCAN_APIKEY");
    assert_eq!(apikey_env_name(ChainType::Ethereum), "APPVKEK_ETHERSCAN_APIKEY");
    assert_eq!(apikey_env_name(ChainType::Polygon), "APPVKEK_POLYGONSCAN_APIKEY");
}

#[test]
fn error_descriptions() {
    assert_eq!(Error::InvalidAddressFormat.describe(), "invalid address format");
    assert_eq!(Error::NonEoaOwner.describe(), "owner address is not an externally owned account");
    assert_eq!(Error::MalformedCallData.describe(), "malformed approve call data");
    assert_eq!(Error::MetadataQueryFailed.describe(), "token metadata query failed");
    assert_eq!(Error::AllowanceQueryFailed.describe(), "allowance query failed");
    assert_eq!(
        Error::TransactionHistoryFetchFailed.describe(),
        "transaction history fetch failed"
    );
}
