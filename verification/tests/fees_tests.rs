use corridor_oracle::error::ContractError;
use corridor_oracle::fees::CorridorFeePool;

#[test]
fn new_pool_is_empty() {
    assert_eq!(
        CorridorFeePool::new(7),
        CorridorFeePool { asset: 7, collected: 0, variable_pool: 0 }
    );
}

#[test]
fn accrual_adds_both_totals() {
    let pool = CorridorFeePool::new(3897123275);
    let pool = pool.accrue(100, 5).unwrap();
    let pool = pool.accrue(50, 7).unwrap();
    assert_eq!(
        pool,
        CorridorFeePool { asset: 3897123275, collected: 150, variable_pool: 12 }
    );
    assert_eq!(CorridorFeePool::new(3897123275).accrue(150, 12), Ok(pool));
}

#[test]
fn accrual_overflow_is_reported() {
    let pool = CorridorFeePool { asset: 1, collected: u64::MAX, variable_pool: 0 };
    assert_eq!(pool.accrue(1, 0), Err(ContractError::Overflow));
    let pool = CorridorFeePool { asset: 1, collected: 0, variable_pool: u64::MAX };
    assert_eq!(pool.accrue(0, 1), Err(ContractError::Overflow));
    assert_eq!(pool.accrue(5, 0).unwrap().collected, 5);
}
