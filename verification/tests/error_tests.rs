use trait_combinations::error::CustomError;

#[test]
fn text_of_each_failure() {
    assert_eq!(
        CustomError::GetEntriesByPath("./images".to_string()).to_string(),
        "Failed to retrieve entries by path folder: ./images"
    );
    assert_eq!(
        CustomError::InvalidTrait("[x]".to_string()).to_string(),
        "Invalid trait config: [x]"
    );
    assert_eq!(
        CustomError::InvalidTotalSupply(18, 6).to_string(),
        "Invalid total supply. Expected: 18. Actual: 6."
    );
    assert_eq!(
        CustomError::InvalidTotalSupply(0, 18446744073709551615).to_string(),
        "Invalid total supply. Expected: 0. Actual: 18446744073709551615."
    );
    assert_eq!(
        CustomError::TotalPercentageExceeded("too much".to_string()).to_string(),
        "too much"
    );
    assert_eq!(
        CustomError::InvalidImageExtension("no image".to_string()).to_string(),
        "no image"
    );
}

#[test]
fn equality_of_failures() {
    assert!(
        CustomError::GetEntriesByPath("a".to_string())
            == CustomError::GetEntriesByPath("a".to_string())
    );
    assert!(
        CustomError::GetEntriesByPath("a".to_string())
            != CustomError::GetEntriesByPath("b".to_string())
    );
    assert!(
        CustomError::InvalidTrait("a".to_string()) == CustomError::InvalidTrait("a".to_string())
    );
    assert!(
        CustomError::InvalidTrait("a".to_string()) != CustomError::GetEntriesByPath("a".to_string())
    );
    assert!(CustomError::InvalidTotalSupply(1, 2) == CustomError::InvalidTotalSupply(1, 2));
    assert!(CustomError::InvalidTotalSupply(1, 2) != CustomError::InvalidTotalSupply(2, 1));
    // failures of the last two kinds equal nothing
    assert!(
        CustomError::TotalPercentageExceeded("a".to_string())
            != CustomError::TotalPercentageExceeded("a".to_string())
    );
    assert!(
        CustomError::InvalidImageExtension("a".to_string())
            != CustomError::InvalidImageExtension("a".to_string())
    );
}
